//! A mounted LemonFS partition: its superblock, its allocator and the root directory's entries
//! kept in memory, and the filesystem operations on paths.

use vstd::prelude::*;
use crate::fs::FSError;
use crate::fs::hashtable::drive::StorageDrive;
use crate::fs::hashtable::headers::{u64_div_ceil, div_ceil};
use super::bitmap::BitmapAllocator;
use super::chain::build_file_chain as plan_file_chain;
use super::chain::chain_outcome;
use super::directory::{Directory, DirectoryEntry, entry_name, first_named};
use super::disk::{BitmapBlock, Filename, LinkBlock, LinkPointer, SuperBlock, BITS_PER_BLOCK, DIR_ALL_FLAGS};
use super::file::{File, links_size, lemma_links_size_prefix};
use super::io::{read_sector, write_sector, sector_of, zero_sectors, read_dir_block, write_link_block, resolve_links,
    trace, covers, is_data, file_links};
use super::ops::{lemma_first_named_is, lemma_first_named_first, lemma_first_named_none, plan_format, load_allocator, create_entry, take_child, file_size, list_names};
use super::path::{Path, str_eq, path_components, parent_components, joined, lemma_root_has_no_components};
use super::rewrite::{plan_rewrite, links_in_area, link_sectors};
use super::superblock::{check_sb, seal_sb, sb_intact, spec_sealed};
use super::tree::{loaded_from, checked_total, last_write, lemma_last_write_bound};

verus! {

/// Reads the superblock: sector 0 if it is intact, else the backup in the last sector; the
/// flag says whether the backup was taken. Neither intact is `BadSuperblock`.
pub fn get_superblock<D: StorageDrive>(drive: &mut D) -> (r: Result<(SuperBlock, bool), FSError>)
    ensures
        final(drive).sectors() == old(drive).sectors(),
        r matches Ok((sb, backup)) ==> sb_intact(sb) && old(drive).sectors().len() > 0 && (if backup {
            sb.image() == old(drive).sectors()[old(drive).sectors().len() - 1]@
        } else {
            sb.image() == old(drive).sectors()[0]@
        }),
        r matches Err(e) ==> e == FSError::IOError || e == FSError::BadSuperblock,
{
    let b = read_sector(drive, 0)?;
    let sb = SuperBlock::from_bytes(&b);
    if !check_sb(&sb) {
        let count = drive.sector_count();
        let b2 = read_sector(drive, count - 1)?;
        let backup = SuperBlock::from_bytes(&b2);
        if !check_sb(&backup) {
            return Err(FSError::BadSuperblock);
        }
        return Ok((backup, true));
    }
    Ok((sb, false))
}

/// Writes `sb` sealed (see [`spec_sealed`]) to the first and the last sector.
pub fn write_sb<D: StorageDrive>(drive: &mut D, sb: &SuperBlock) -> (r: Result<(), FSError>)
    ensures
        final(drive).sectors().len() == old(drive).sectors().len(),
        r is Ok ==> old(drive).sectors().len() > 0
            && final(drive).sectors()[0]@ == spec_sealed(*sb).image()
            && final(drive).sectors()[old(drive).sectors().len() - 1]@ == spec_sealed(*sb).image(),
        r matches Err(e) ==> e == FSError::IOError,
{
    let sealed = seal_sb(sb);
    let bytes = sealed.to_bytes();
    let sector = sector_of(&bytes);
    write_sector(drive, 0, &sector)?;
    let count = drive.sector_count();
    write_sector(drive, count - 1, &sector)?;
    Ok(())
}

/// Bitmap block `k` of `bits` is written in sector `start + k` of `s`.
pub open spec fn block_synced(s: Seq<[u8; 512]>, start: int, bits: Seq<bool>, k: int) -> bool {
    &&& start + k < s.len()
    &&& BitmapBlock(s[start + k]).bits() == bits.subrange(k * BITS_PER_BLOCK, (k + 1) * BITS_PER_BLOCK)
}

/// Writing the link blocks `w` in order took the partition from `s0` to `s1`: each sector
/// holds the last block written to it, and the sectors not written are unchanged.
pub open spec fn link_writes_applied(s0: Seq<[u8; 512]>, s1: Seq<[u8; 512]>, w: Seq<(u64, LinkBlock)>) -> bool {
    &&& s1.len() == s0.len()
    &&& forall|l: int| 0 <= l < s0.len() ==> match last_write(w, l) {
        Some(k) => (#[trigger] s1[l])@ == w[k].1.image(),
        None => s1[l] == s0[l],
    }
}

/// Writing one more link block keeps the record of what was written.
proof fn lemma_link_writes_push(s0: Seq<[u8; 512]>, s1: Seq<[u8; 512]>, s2: Seq<[u8; 512]>, w: Seq<(u64, LinkBlock)>, x: (u64, LinkBlock))
    requires
        link_writes_applied(s0, s1, w),
        x.0 < s1.len(),
        s2.len() == s1.len(),
        s2[x.0 as int]@ == x.1.image(),
        forall|l: int| 0 <= l < s1.len() && l != x.0 ==> #[trigger] s2[l] == s1[l],
    ensures
        link_writes_applied(s0, s2, w.push(x)),
{
    let w2 = w.push(x);
    assert(w2.drop_last() =~= w);
    assert forall|l: int| 0 <= l < s0.len() implies match last_write(w2, l) {
        Some(k) => (#[trigger] s2[l])@ == w2[k].1.image(),
        None => s2[l] == s0[l],
    } by {
        lemma_last_write_bound(w, l);
        if l != x.0 {
            assert(s2[l] == s1[l]);
            if let Some(k) = last_write(w, l) {
                assert(w2[k] == w[k]);
            }
        }
    }
}

/// Building the chain of a file whose data lies in `blocks` took the allocator's bits from
/// `b0` to `b1` and the partition from `s0` to `s1`, with `head` as the chain: the link blocks
/// planned (see [`chain_outcome`]) were written in order.
pub open spec fn chain_built(b0: Seq<bool>, b1: Seq<bool>, base: u64, nb: int, blocks: Seq<u64>,
    s0: Seq<[u8; 512]>, s1: Seq<[u8; 512]>, head: LinkPointer) -> bool {
    exists|w: Vec<(u64, LinkBlock)>| #[trigger] chain_outcome(b0, b1, base, nb, blocks, Ok((head, w)))
        && link_writes_applied(s0, s1, w@)
}

impl BitmapAllocator {
    /// Writes the bitmap blocks to the sectors from `bitmap_start` on.
    pub fn sync<D: StorageDrive>(&self, drive: &mut D, bitmap_start: u64) -> (r: Result<(), FSError>)
        requires
            self.wf(),
        ensures
            final(drive).sectors().len() == old(drive).sectors().len(),
            r is Ok ==> forall|k: int| 0 <= k < self.num_blocks()
                ==> #[trigger] block_synced(final(drive).sectors(), bitmap_start as int, self.bits(), k),
            r is Ok ==> forall|l: int| 0 <= l < old(drive).sectors().len() && !(bitmap_start <= l < bitmap_start + self.num_blocks())
                ==> #[trigger] final(drive).sectors()[l] == old(drive).sectors()[l],
            r matches Err(e) ==> e == FSError::IOError,
    {
        let n = self.block_count();
        let mut i: usize = 0;
        while i < n
            invariant
                self.wf(),
                n == self.num_blocks(),
                i <= n,
                drive.sectors().len() == old(drive).sectors().len(),
                forall|l: int| 0 <= l < old(drive).sectors().len() && !(bitmap_start <= l < bitmap_start + i)
                    ==> #[trigger] drive.sectors()[l] == old(drive).sectors()[l],
                forall|k: int| 0 <= k < i ==> #[trigger] block_synced(drive.sectors(), bitmap_start as int, self.bits(), k),
            decreases n - i,
        {
            let block = self.block_image(i);
            if bitmap_start > u64::MAX - i as u64 {
                return Err(FSError::IOError);
            }
            let ghost before = drive.sectors();
            write_sector(drive, bitmap_start + i as u64, &block.0)?;
            proof {
                assert forall|k: int| 0 <= k < i + 1 implies #[trigger] block_synced(drive.sectors(), bitmap_start as int, self.bits(), k) by {
                    if k < i {
                        assert(block_synced(before, bitmap_start as int, self.bits(), k));
                        assert(drive.sectors()[bitmap_start + k] == before[bitmap_start + k]);
                    } else {
                        assert(BitmapBlock(drive.sectors()[bitmap_start + k]) == block);
                    }
                }
            }
            i = i + 1;
        }
        Ok(())
    }
}

/// Formats the partition: writes a fresh superblock (sealed, to the first and last sector),
/// zeroes the bitmap and the root directory's block, and returns the superblock. A partition
/// of fewer than 0x1000 sectors is `NoSpace`.
pub fn format<D: StorageDrive>(drive: &mut D) -> (r: Result<SuperBlock, FSError>)
    ensures
        final(drive).sectors().len() == old(drive).sectors().len(),
        old(drive).sectors().len() < 0x1000 ==> r == Err::<SuperBlock, FSError>(FSError::NoSpace),
        r matches Ok(sb) ==> sb.bitmap_start == 1 && sb.data_start == 1 + (old(drive).sectors().len() + 0xFFF) / 0x1000
            && sb.data_end == old(drive).sectors().len() - 2
            && final(drive).sectors()[0]@ == spec_sealed(sb).image()
            && final(drive).sectors()[sb.data_end as int]@ == super::io::zeros(),
        r matches Err(e) ==> e == FSError::IOError || e == FSError::NoSpace,
{
    let plan = plan_format(drive.sector_count())?;
    let sb = plan.superblock;
    write_sb(drive, &sb)?;
    let ghost after_sb = drive.sectors();
    zero_sectors(drive, sb.bitmap_start, sb.data_start - sb.bitmap_start)?;
    let ghost after_bitmap = drive.sectors();
    zero_sectors(drive, sb.data_end, 1)?;
    proof {
        assert(drive.sectors()[0] == after_bitmap[0]);
        assert(after_bitmap[0] == after_sb[0]);
    }
    Ok(sb)
}

/// A mounted LemonFS partition.
pub struct LemonFS<D: StorageDrive> {
    drive: D,
    superblock: SuperBlock,
    bitmap: BitmapAllocator,
    root: Vec<DirectoryEntry>,
}

impl<D: StorageDrive> LemonFS<D> {
    /// The allocator is well formed.
    pub closed spec fn wf(&self) -> bool {
        self.bitmap.wf()
    }

    /// The sectors of the partition.
    pub closed spec fn image(&self) -> Seq<[u8; 512]> {
        self.drive.sectors()
    }

    /// The root directory's entries, as kept in memory.
    pub closed spec fn root_entries(&self) -> Seq<DirectoryEntry> {
        self.root@
    }

    /// The allocation bits of the data blocks, as kept in memory: bit `i` stands for LBA
    /// `sb().data_start + i`.
    pub closed spec fn allocation(&self) -> Seq<bool> {
        self.bitmap.bits()
    }

    /// The LBA that bit 0 of the allocation stands for.
    pub closed spec fn allocation_base(&self) -> u64 {
        self.bitmap.base()
    }

    /// The number of bitmap blocks kept in memory.
    pub closed spec fn bitmap_blocks(&self) -> nat {
        self.bitmap.num_blocks()
    }

    /// The superblock the partition was mounted with.
    pub closed spec fn sb(&self) -> SuperBlock {
        self.superblock
    }

    /// The superblock the partition was mounted with.
    pub fn superblock(&self) -> (r: SuperBlock)
        ensures
            r == self.sb(),
    {
        self.superblock
    }

    /// Gives the drive back.
    pub fn into_drive(self) -> (r: D)
        ensures
            r.sectors() == self.image(),
    {
        self.drive
    }

    /// The pointer to the root directory's block, the last usable one.
    pub fn root_ptr(&self) -> (r: LinkPointer)
        ensures
            r == (LinkPointer { start: self.sb().data_end, size: 512 }),
    {
        LinkPointer { start: self.superblock.data_end, size: 512 }
    }

    /// The root directory, from the entries kept in memory.
    pub fn root_dir(&self) -> (r: Directory)
        ensures
            r.parent == 0,
            r.head == (LinkPointer { start: self.sb().data_end, size: 512 }),
            r.children@.len() == self.root_entries().len(),
            forall|k: int| 0 <= k < self.root_entries().len() ==> entry_name(#[trigger] r.children@[k]) == entry_name(self.root_entries()[k])
                && (r.children@[k] is File <==> self.root_entries()[k] is File),
            same_entries(r.children@, self.root_entries()),
    {
        let slash = "/";
        Directory { name: Filename::from_str(slash), children: clone_entries(&self.root), parent: 0, head: self.root_ptr() }
    }

    /// The directory that holds the last component of `path`: the walk starts at the root and
    /// enters each component of the parent path, following symbolic links. A missing
    /// component is `FileNotFound`, a file on the way `BadFileType`.
    pub fn get_parent(&mut self, path: &Path) -> (r: Result<Directory, FSError>)
        ensures
            final(self).image() == old(self).image(),
            final(self).wf() == old(self).wf(),
            final(self).sb() == old(self).sb(),
            final(self).root_entries() == old(self).root_entries(),
            r matches Err(e) ==> e == FSError::FileNotFound || e == FSError::BadFileType || e == FSError::IOError,
            path_components(path@).len() <= 1 ==> (r matches Ok(d) && d.parent == 0
                && d.head == (LinkPointer { start: old(self).sb().data_end, size: 512 })
                && d.children@.len() == old(self).root_entries().len()
                && same_entries(d.children@, old(self).root_entries())),
            parent_components(path@).len() > 0 && first_named(old(self).root_entries(), parent_components(path@)[0]) is None
                ==> r == Err::<Directory, FSError>(FSError::FileNotFound),
            parent_components(path@).len() > 0 && (first_named(old(self).root_entries(), parent_components(path@)[0]) matches Some(k)
                && old(self).root_entries()[k] is File) ==> r == Err::<Directory, FSError>(FSError::BadFileType),
            parent_components(path@).len() > 0 ==> (r matches Ok(d) ==> reaches(old(self).image(), old(self).root_entries(),
                parent_components(path@), d)),
            r == Err::<Directory, FSError>(FSError::FileNotFound)
                ==> walk_misses(old(self).image(), old(self).root_entries(), parent_components(path@)),
            r == Err::<Directory, FSError>(FSError::BadFileType)
                ==> walk_meets_file(old(self).image(), old(self).root_entries(), parent_components(path@)),
    {
        let ghost s = old(self).image();
        let parent_path = path.parent();
        let mut curr_parent = self.root_dir();
        let comps = parent_path.components();
        proof {
            if path_components(path@).len() <= 1 {
                let m = if path_components(path@).len() == 0 { 0int } else { path_components(path@).len() - 1 };
                assert(path_components(path@).subrange(0, m) =~= Seq::<Seq<char>>::empty());
                lemma_root_has_no_components();
            }
            assert(path_components(parent_path@) == parent_components(path@));
        }
        let ghost root = old(self).root_entries();
        let ghost pc = parent_components(path@);
        let ghost mut i0: int = 0;
        let ghost mut ds: Seq<Directory> = Seq::empty();
        let mut i: usize = 0;
        while i < comps.len()
            invariant
                root == old(self).root_entries(),
                pc == parent_components(path@),
                comps@.len() == pc.len(),
                i > 0 ==> (first_named(root, pc[0]) matches Some(k) && !(root[k] is File)),
                self.image() == old(self).image(),
                self.wf() == old(self).wf(),
                self.sb() == old(self).sb(),
                self.root_entries() == old(self).root_entries(),
                comps@.len() == path_components(parent_path@).len(),
                i <= comps@.len(),
                path_components(path@).len() <= 1 ==> comps@.len() == 0,
                i == 0 ==> curr_parent.parent == 0
                    && curr_parent.head == (LinkPointer { start: old(self).sb().data_end, size: 512 })
                    && curr_parent.children@.len() == old(self).root_entries().len()
                    && forall|k: int| 0 <= k < old(self).root_entries().len()
                        ==> entry_name(#[trigger] curr_parent.children@[k]) == entry_name(old(self).root_entries()[k])
                        && (curr_parent.children@[k] is File <==> old(self).root_entries()[k] is File)
                    && same_entries(curr_parent.children@, old(self).root_entries()),
                forall|k: int| 0 <= k < comps@.len() ==> #[trigger] comps@[k]@ == parent_components(path@)[k],
                s == old(self).image(),
                walked(s, root, pc, ds),
                ds.len() == i,
                i > 0 ==> ds.last() == curr_parent,
            decreases comps@.len() - i,
        {
            let component: &str = comps[i];
            let cname = String::from_str(component);
            let child = curr_parent.get_child(&cname);
            let ghost es = looked_in(root, ds);
            let ghost mut ki: int = 0;
            proof {
                assert(cname@ == pc[i as int]);
                if i > 0 {
                    match child {
                        Some(e) => {
                            let c = curr_parent.children@;
                            ki = choose|k: int| 0 <= k < c.len() && c[k] == *e && entry_name(*e) == cname@
                                && forall|j: int| 0 <= j < k ==> entry_name(c[j]) != cname@;
                            lemma_first_named_is(c, cname@, ki);
                            if e is File {
                                assert(walked(s, root, pc, ds));
                            }
                        },
                        None => {
                            lemma_first_named_none(curr_parent.children@, cname@);
                            assert(walked(s, root, pc, ds));
                        },
                    }
                }
                if i == 0 {
                    assert(cname@ == pc[0]);
                    match child {
                        Some(e) => {
                            let c = curr_parent.children@;
                            i0 = choose|k: int| 0 <= k < c.len() && c[k] == *e && entry_name(*e) == cname@
                                && forall|j: int| 0 <= j < k ==> entry_name(c[j]) != cname@;
                            assert forall|j: int| 0 <= j < i0 implies entry_name(root[j]) != pc[0] by {
                                assert(entry_name(c[j]) == entry_name(root[j]));
                            }
                            assert(entry_name(c[i0]) == entry_name(root[i0]));
                            lemma_first_named_is(root, pc[0], i0);
                            assert(c[i0] is File <==> root[i0] is File);
                            assert(same_entry(c[i0], root[i0]));
                            ki = i0;
                            if root[i0] is File {
                                assert(walked(s, root, pc, ds));
                            }
                        },
                        None => {
                            assert forall|j: int| 0 <= j < root.len() implies entry_name(root[j]) != pc[0] by {
                                assert(entry_name(curr_parent.children@[j]) == entry_name(root[j]));
                            }
                            lemma_first_named_none(root, pc[0]);
                            assert(walked(s, root, pc, ds));
                        },
                    }
                }
            }
            let next = match child {
                None => return Err(FSError::FileNotFound),
                Some(DirectoryEntry::File(_)) => return Err(FSError::BadFileType),
                Some(DirectoryEntry::SymLink { name: _, dest }) => {
                    let dest = *dest;
                    let block = read_dir_block(&mut self.drive, dest.start)?;
                    Directory::from_dir_block(&mut self.drive, &block, Filename::from_str(component), dest)?
                }
                Some(dentry) => Directory::from_directory_entry(&mut self.drive, dentry)?,
            };
            proof {
                assert(first_named(es, pc[i as int]) == Some(ki));
                assert(es[ki] == *child->0);
                assert(entered(s, es, pc[i as int], next)) by {
                    reveal(entered);
                }
                let ds1 = ds.push(next);
                assert forall|j: int| 0 < j < ds1.len() implies entered(s, ds1[j - 1].children@, pc[j], #[trigger] ds1[j]) by {
                    if j < ds.len() {
                        assert(ds1[j] == ds[j] && ds1[j - 1] == ds[j - 1]);
                    }
                }
                assert(walked(s, root, pc, ds1));
                ds = ds1;
            }
            curr_parent = next;
            i = i + 1;
        }
        Ok(curr_parent)
    }

    /// Builds the link chain of a file whose data lies in `blocks` (see
    /// [`super::chain::build_file_chain`]) and writes its link blocks.
    fn build_file_chain(&mut self, blocks: &Vec<u64>) -> (r: Result<LinkPointer, FSError>)
        requires
            old(self).wf(),
        ensures
            final(self).wf(),
            final(self).image().len() == old(self).image().len(),
            final(self).sb() == old(self).sb(),
            final(self).root_entries() == old(self).root_entries(),
            blocks@.len() == 0 || blocks@.len() > usize::MAX / 512 ==> r == Err::<LinkPointer, FSError>(FSError::IOError),
            (exists|i: int| 0 <= i < blocks@.len() && #[trigger] blocks@[i] + blocks@.len() > u64::MAX)
                ==> r == Err::<LinkPointer, FSError>(FSError::IOError),
            r matches Ok(head) ==> chain_built(old(self).allocation(), final(self).allocation(), old(self).allocation_base(),
                old(self).bitmap_blocks() as int, blocks@, old(self).image(), final(self).image(), head),
            r == Err::<LinkPointer, FSError>(FSError::NoSpace) ==> final(self).image() == old(self).image()
                && chain_outcome(old(self).allocation(), final(self).allocation(), old(self).allocation_base(),
                    old(self).bitmap_blocks() as int, blocks@, Err(FSError::NoSpace)),
            r matches Err(e) ==> e == FSError::IOError || e == FSError::NoSpace,
    {
        let n = blocks.len();
        if n == 0 || n > usize::MAX / 512 {
            return Err(FSError::IOError);
        }
        let mut k: usize = 0;
        while k < n
            invariant
                n == blocks@.len(),
                k <= n,
                *self == *old(self),
                old(self).wf(),
                forall|i: int| 0 <= i < k ==> #[trigger] blocks@[i] + blocks@.len() <= u64::MAX,
            decreases n - k,
        {
            if blocks[k] > u64::MAX - n as u64 {
                return Err(FSError::IOError);
            }
            k = k + 1;
        }
        proof {
            assert(n * 512 <= usize::MAX) by (nonlinear_arith)
                requires n <= usize::MAX / 512;
        }
        let planned = plan_file_chain(&mut self.bitmap, blocks.as_slice());
        let (head, writes) = match planned {
            Ok(p) => p,
            Err(e) => return Err(e),
        };
        let ghost bits = self.allocation();
        proof {
            assert(writes@.subrange(0, 0) =~= Seq::<(u64, LinkBlock)>::empty());
        }
        let mut i: usize = 0;
        while i < writes.len()
            invariant
                self.wf(),
                self.image().len() == old(self).image().len(),
                self.sb() == old(self).sb(),
                self.root_entries() == old(self).root_entries(),
                self.allocation() == bits,
                i <= writes@.len(),
                link_writes_applied(old(self).image(), self.image(), writes@.subrange(0, i as int)),
            decreases writes@.len() - i,
        {
            let (lba, ref block) = writes[i];
            let ghost s1 = self.image();
            write_link_block(&mut self.drive, lba, block)?;
            proof {
                lemma_link_writes_push(old(self).image(), s1, self.image(), writes@.subrange(0, i as int), writes@[i as int]);
                assert(writes@.subrange(0, i as int).push(writes@[i as int]) =~= writes@.subrange(0, i + 1));
            }
            i = i + 1;
        }
        proof {
            assert(writes@.subrange(0, writes@.len() as int) =~= writes@);
            assert(link_writes_applied(old(self).image(), self.image(), writes@));
            assert(chain_outcome(old(self).allocation(), self.allocation(), old(self).allocation_base(),
                old(self).bitmap_blocks() as int, blocks@, Ok((head, writes))));
            assert(chain_built(old(self).allocation(), self.allocation(), old(self).allocation_base(),
                old(self).bitmap_blocks() as int, blocks@, old(self).image(), self.image(), head));
        }
        Ok(head)
    }

    /// Creates the entry `path` with `flags` (see [`create_entry`]) in the directory that
    /// holds it, and writes that directory back; an entry of the root directory is also kept
    /// in memory. The root itself is `IsRoot`.
    pub fn create(&mut self, path: String, flags: u64) -> (r: Result<(), FSError>)
        requires
            old(self).wf(),
        ensures
            final(self).wf(),
            final(self).sb() == old(self).sb(),
            final(self).image().len() == old(self).image().len(),
            path@ == seq!['/'] ==> r == Err::<(), FSError>(FSError::IsRoot) && final(self).image() == old(self).image(),
            r matches Err(e) ==> e != FSError::WrongFS && e != FSError::BadSuperblock && e != FSError::IsRoot || path@ == seq!['/'],
            path_components(path@).len() == 1 && first_named(old(self).root_entries(), path_components(path@)[0]) is Some
                ==> r == Err::<(), FSError>(FSError::FileExists) && final(self).image() == old(self).image(),
            path_components(path@).len() == 1 && first_named(old(self).root_entries(), path_components(path@)[0]) is None
                && (flags as u8) & !DIR_ALL_FLAGS != 0
                ==> r == Err::<(), FSError>(FSError::BadFlags) && final(self).image() == old(self).image(),
            path_components(path@).len() == 1 && r is Ok ==> final(self).root_entries().len() == old(self).root_entries().len() + 1
                && final(self).root_entries().drop_last() == old(self).root_entries(),
    {
        let ghost path0 = path@;
        let path = Path::from_string(path);
        proof { if path_components(path0).len() == 1 { lemma_one_component(path0); } }
        if path.is_root() {
            return Err(FSError::IsRoot);
        }
        let mut parent = self.get_parent(&path)?;
        let name = path.name();
        proof {
            if path_components(path0).len() == 1 {
                lemma_same_entries_named(parent.children@, old(self).root_entries(), name@);
                lemma_root_has_no_components();
                assert(path_components(path0).subrange(0, 0) =~= Seq::<Seq<char>>::empty());
            }
        }
        let entry = create_entry(&parent, &name, flags, &mut self.bitmap)?;
        parent.give_child(&mut self.drive, &mut self.bitmap, entry.clone())?;
        if path.parent().is_root() {
            self.root.push(entry);
        }
        Ok(())
    }

    /// The position in the root entries kept in memory of the first one named `name`.
    fn root_position(&self, name: &String) -> (r: Option<usize>)
        ensures
            r matches Some(i) ==> i < self.root_entries().len() && entry_name(self.root_entries()[i as int]) == name@,
            r matches Some(i) ==> forall|j: int| 0 <= j < i ==> entry_name(#[trigger] self.root_entries()[j]) != name@,
            r is None ==> forall|j: int| 0 <= j < self.root_entries().len() ==> entry_name(#[trigger] self.root_entries()[j]) != name@,
    {
        let mut i: usize = 0;
        while i < self.root.len()
            invariant
                i <= self.root@.len(),
                forall|j: int| 0 <= j < i ==> entry_name(#[trigger] self.root@[j]) != name@,
            decreases self.root@.len() - i,
        {
            let n = self.root[i].name();
            if str_eq(n.as_str(), name.as_str()) {
                return Some(i);
            }
            i = i + 1;
        }
        None
    }

    /// Removes the entry `path`: takes it out of its directory (see [`take_child`]), deletes a
    /// file's or a directory's blocks (a symbolic link has none), writes the directory back and
    /// drops the entry from the root entries kept in memory. The root itself is `IsRoot`.
    pub fn delete(&mut self, path: String) -> (r: Result<(), FSError>)
        requires
            old(self).wf(),
        ensures
            final(self).wf(),
            final(self).sb() == old(self).sb(),
            final(self).image().len() == old(self).image().len(),
            path@ == seq!['/'] ==> r == Err::<(), FSError>(FSError::IsRoot) && final(self).image() == old(self).image(),
            path_components(path@).len() == 1 && first_named(old(self).root_entries(), path_components(path@)[0]) is None
                ==> r == Err::<(), FSError>(FSError::FileNotFound) && final(self).image() == old(self).image(),
            path_components(path@).len() == 1 && r is Ok
                ==> (first_named(old(self).root_entries(), path_components(path@)[0]) matches Some(i)
                    && final(self).root_entries() == swap_removed(old(self).root_entries(), i)),
    {
        let ghost path0 = path@;
        let path = Path::from_string(path);
        proof { if path_components(path0).len() == 1 { lemma_one_component(path0); } }
        if path.is_root() {
            return Err(FSError::IsRoot);
        }
        let mut parent = self.get_parent(&path)?;
        let name = path.name();
        proof {
            if path_components(path0).len() == 1 {
                lemma_same_entries_named(parent.children@, old(self).root_entries(), name@);
                lemma_root_has_no_components();
                assert(path_components(path0).subrange(0, 0) =~= Seq::<Seq<char>>::empty());
            }
        }
        let file = take_child(&mut parent, &name)?;
        match file {
            DirectoryEntry::File(f) => {
                f.delete(&mut self.drive, &mut self.bitmap)?;
            }
            DirectoryEntry::Directory { name: _, link: _ } => {
                let dir = Directory::from_directory_entry(&mut self.drive, &file)?;
                dir.delete(&mut self.drive, &mut self.bitmap)?;
            }
            DirectoryEntry::SymLink { name: _, dest: _ } => {}
        }
        parent.sync(&mut self.drive, &mut self.bitmap)?;
        if path.parent().is_root() {
            let idx = match self.root_position(&name) {
                Some(i) => i,
                None => return Err(FSError::FileNotFound),
            };
            proof {
                lemma_first_named_is(self.root@, name@, idx as int);
            }
            self.root.swap_remove(idx);
        }
        Ok(())
    }

    /// The size of the file `path` (see [`file_size`]). The root itself is `IsRoot`.
    pub fn size(&mut self, path: String) -> (r: Result<u64, FSError>)
        ensures
            final(self).image() == old(self).image(),
            final(self).wf() == old(self).wf(),
            final(self).sb() == old(self).sb(),
            final(self).root_entries() == old(self).root_entries(),
            path@ == seq!['/'] ==> r == Err::<u64, FSError>(FSError::IsRoot),
            path_components(path@).len() == 1 ==> r == size_in(old(self).root_entries(), path_components(path@)[0]),
    {
        let ghost path0 = path@;
        let path = Path::from_string(path);
        proof { if path_components(path0).len() == 1 { lemma_one_component(path0); } }
        if path.is_root() {
            return Err(FSError::IsRoot);
        }
        let parent = self.get_parent(&path)?;
        let name = path.name();
        let r = file_size(&parent, &name);
        proof {
            assert(r == size_in(parent.children@, name@));
            if path_components(path0).len() == 1 {
                lemma_same_size(parent.children@, old(self).root_entries(), name@);
            }
        }
        r
    }

    /// The names of the entries of the directory `path`: those kept in memory for the root,
    /// else those read from the directory, or from the directory a symbolic link points to.
    /// A file is `BadFileType`.
    pub fn list(&mut self, path: String) -> (r: Result<Vec<String>, FSError>)
        ensures
            final(self).image() == old(self).image(),
            final(self).wf() == old(self).wf(),
            final(self).sb() == old(self).sb(),
            final(self).root_entries() == old(self).root_entries(),
            path@ == seq!['/'] ==> (r matches Ok(v) && v@.len() == old(self).root_entries().len()
                && forall|i: int| 0 <= i < v@.len() ==> #[trigger] v@[i]@ == entry_name(old(self).root_entries()[i])),
    {
        let path = Path::from_string(path);
        if path.is_root() {
            return Ok(list_names(&self.root));
        }
        let parent = self.get_parent(&path)?;
        let name = path.name();
        let pos = match parent.find_child_idx(&name) {
            Some(i) => i,
            None => return Err(FSError::FileNotFound),
        };
        let dentry = &parent.children[pos];
        let dir = match dentry {
            DirectoryEntry::File(_) => return Err(FSError::BadFileType),
            DirectoryEntry::SymLink { name, dest } => {
                let block = read_dir_block(&mut self.drive, dest.start)?;
                Directory::from_dir_block(&mut self.drive, &block, *name, *dest)?
            }
            DirectoryEntry::Directory { name: _, link: _ } => Directory::from_directory_entry(&mut self.drive, dentry)?,
        };
        Ok(list_names(&dir.children))
    }
}

/// Byte `k` of the run of sectors of `s` that starts at `start`.
pub open spec fn run_byte(s: Seq<[u8; 512]>, start: int, k: int) -> u8 {
    s[start + k / 512]@[k % 512]
}

/// The bytes that the data pointers `links` hold in `s`, pointer after pointer.
pub open spec fn file_bytes(s: Seq<[u8; 512]>, links: Seq<LinkPointer>) -> Seq<u8>
    decreases links.len(),
{
    if links.len() == 0 {
        Seq::empty()
    } else {
        file_bytes(s, links.drop_last()) + Seq::new(links.last().size as nat, |k: int| run_byte(s, links.last().start as int, k))
    }
}

/// `dest` went from `d0` to `d1` by taking the first `n` bytes of `bytes`.
pub open spec fn read_back(d0: Seq<u8>, d1: Seq<u8>, bytes: Seq<u8>, n: int) -> bool {
    &&& d1.len() == d0.len()
    &&& forall|k: int| 0 <= k < n ==> #[trigger] d1[k] == bytes[k]
    &&& forall|k: int| n <= k < d0.len() ==> #[trigger] d1[k] == d0[k]
}

/// The bytes of a prefix of the pointers are a prefix of the bytes of all of them.
proof fn lemma_file_bytes_prefix(s: Seq<[u8; 512]>, links: Seq<LinkPointer>, i: int)
    requires
        0 <= i <= links.len(),
    ensures
        file_bytes(s, links.subrange(0, i)).len() == links_size(links.subrange(0, i)),
        forall|k: int| 0 <= k < links_size(links.subrange(0, i))
            ==> #[trigger] file_bytes(s, links.subrange(0, i))[k] == file_bytes(s, links)[k],
    decreases links.len() - i,
{
    lemma_file_bytes_len(s, links.subrange(0, i));
    if i < links.len() {
        lemma_file_bytes_prefix(s, links, i + 1);
        let a = links.subrange(0, i);
        let b = links.subrange(0, i + 1);
        assert(b.drop_last() =~= a);
        lemma_file_bytes_len(s, a);
        assert forall|k: int| 0 <= k < links_size(a) implies #[trigger] file_bytes(s, a)[k] == file_bytes(s, links)[k] by {
            assert(file_bytes(s, b)[k] == file_bytes(s, a)[k]);
        }
    } else {
        assert(links.subrange(0, i) =~= links);
    }
}

proof fn lemma_file_bytes_len(s: Seq<[u8; 512]>, links: Seq<LinkPointer>)
    ensures
        file_bytes(s, links).len() == links_size(links),
    decreases links.len(),
{
    if links.len() > 0 {
        lemma_file_bytes_len(s, links.drop_last());
    }
}

/// `dest` went from `d0` to `d1` by copying the first `bytes` bytes of the run of sectors of `s`
/// from `start` to position `offset`, and nothing else.
pub open spec fn run_read(d0: Seq<u8>, d1: Seq<u8>, s: Seq<[u8; 512]>, start: int, bytes: int, offset: int) -> bool {
    &&& d1.len() == d0.len()
    &&& forall|k: int| 0 <= k < bytes ==> #[trigger] d1[offset + k] == run_byte(s, start, k)
    &&& forall|k: int| 0 <= k < d0.len() && !(offset <= k < offset + bytes) ==> #[trigger] d1[k] == d0[k]
}

/// Byte `k` of what is written from `src` at `offset` for `size` bytes: the byte of `src`, or
/// zero past `size` or past the end of `src`.
pub open spec fn written_byte(src: Seq<u8>, offset: int, size: int, k: int) -> u8 {
    if k < size && offset + k < src.len() { src[offset + k] } else { 0u8 }
}

/// The drive went from `s0` to `s1` by writing the `size` bytes of `src` from `offset` to the
/// whole sectors from `start`, zero-padded, and nothing else.
pub open spec fn run_written(s0: Seq<[u8; 512]>, s1: Seq<[u8; 512]>, start: int, src: Seq<u8>, offset: int, size: int) -> bool {
    let n = div_ceil(size, 512);
    &&& s1.len() == s0.len()
    &&& n > 0 ==> start + n <= s0.len()
    &&& forall|k: int| 0 <= k < n * 512 ==> #[trigger] run_byte(s1, start, k) == written_byte(src, offset, size, k)
    &&& forall|l: int| 0 <= l < s0.len() && !(start <= l < start + n) ==> #[trigger] s1[l] == s0[l]
}

/// Reading back a written run gives what was written: when a run was written from `src` at
/// `offset` for `size` bytes, and `bytes` of those are read into a buffer at `pos`, the buffer
/// holds the bytes of `src` from `offset` there.
pub proof fn lemma_run_reads_back(s0: Seq<[u8; 512]>, s1: Seq<[u8; 512]>, start: int, src: Seq<u8>, offset: int,
    size: int, d0: Seq<u8>, d1: Seq<u8>, bytes: int, pos: int)
    requires
        run_written(s0, s1, start, src, offset, size),
        run_read(d0, d1, s1, start, bytes, pos),
        0 <= bytes <= size,
        0 <= offset,
        offset + bytes <= src.len(),
        0 <= pos,
        pos + bytes <= d0.len(),
    ensures
        d1.subrange(pos, pos + bytes) == src.subrange(offset, offset + bytes),
{
    assert forall|k: int| 0 <= k < bytes implies #[trigger] d1.subrange(pos, pos + bytes)[k] == src.subrange(offset, offset + bytes)[k] by {
        lemma_div_ceil_covers(size);
        assert(k < div_ceil(size, 512) * 512);
        assert(d1[pos + k] == run_byte(s1, start, k));
        assert(run_byte(s1, start, k) == written_byte(src, offset, size, k));
    }
    assert(d1.subrange(pos, pos + bytes) =~= src.subrange(offset, offset + bytes));
}

/// `div_ceil(x, 512)` whole sectors cover `x` bytes.
proof fn lemma_div_ceil_covers(x: int)
    requires
        x >= 0,
    ensures
        div_ceil(x, 512) * 512 >= x,
        div_ceil(x, 512) >= 0,
{
    vstd::arithmetic::div_mod::lemma_fundamental_div_mod(x + 511, 512);
}

/// Copies the first `bytes` bytes of the `sectors` sectors from `start` into `dest` at `offset`.
fn read_into<D: StorageDrive>(drive: &mut D, start: u64, sectors: u64, bytes: u64, dest: &mut Vec<u8>, offset: usize) -> (r: Result<(), FSError>)
    requires
        bytes <= sectors * 512,
        offset + bytes <= old(dest)@.len(),
    ensures
        final(drive).sectors() == old(drive).sectors(),
        final(dest)@.len() == old(dest)@.len(),
        r is Ok ==> run_read(old(dest)@, final(dest)@, old(drive).sectors(), start as int, bytes as int, offset as int),
        r matches Err(e) ==> e == FSError::IOError,
{
    let dlen = dest.len();
    let ghost s = drive.sectors();
    let mut done: u64 = 0;
    let mut i: u64 = 0;
    while i < sectors
        invariant
            drive.sectors() == old(drive).sectors(),
            s == old(drive).sectors(),
            dest@.len() == old(dest)@.len(),
            dlen == dest@.len(),
            offset + bytes <= dest@.len(),
            bytes <= sectors * 512,
            i <= sectors,
            done == (if i * 512 < bytes { i * 512 } else { bytes as int }),
            forall|k: int| 0 <= k < done ==> #[trigger] dest@[offset + k] == run_byte(s, start as int, k),
            forall|k: int| 0 <= k < dest@.len() && !(offset <= k < offset + done) ==> #[trigger] dest@[k] == old(dest)@[k],
        decreases sectors - i,
    {
        if start > u64::MAX - i {
            return Err(FSError::IOError);
        }
        let block = read_sector(drive, start + i)?;
        let ghost base = done;
        let mut j: usize = 0;
        while j < 512 && done < bytes
            invariant
                dest@.len() == old(dest)@.len(),
                dlen == dest@.len(),
                offset + bytes <= dest@.len(),
                j <= 512,
                done <= bytes,
                done == base + j,
                base == (if i * 512 < bytes { i * 512 } else { bytes as int }),
                block == s[start + i],
                forall|k: int| 0 <= k < done ==> #[trigger] dest@[offset + k] == run_byte(s, start as int, k),
                forall|k: int| 0 <= k < dest@.len() && !(offset <= k < offset + done) ==> #[trigger] dest@[k] == old(dest)@[k],
            decreases 512 - j,
        {
            proof {
                assert(base == i * 512);
                super::disk::lemma_in_stretch(done as int, 512, i as int);
                assert(run_byte(s, start as int, done as int) == block@[j as int]);
            }
            dest.set(offset + done as usize, block[j]);
            done = done + 1;
            j = j + 1;
        }
        proof {
            if j == 512 {
                assert(base == i * 512);
                assert(done == (i + 1) * 512);
            } else {
                assert(done == bytes);
                assert((i + 1) * 512 >= bytes) by (nonlinear_arith)
                    requires done == bytes, done == base + j, j < 512,
                        base == (if i * 512 < bytes { i * 512 } else { bytes as int });
            }
        }
        i = i + 1;
    }
    proof {
        assert(done == bytes) by (nonlinear_arith)
            requires i == sectors, bytes <= sectors * 512, done == (if i * 512 < bytes { i * 512 } else { bytes as int });
    }
    Ok(())
}

/// Writes the `size` bytes of `src` from `offset` (zeros past its end) to the sectors from
/// `start`.
fn write_from<D: StorageDrive>(drive: &mut D, start: u64, src: &[u8], offset: u64, size: u64) -> (r: Result<(), FSError>)
    ensures
        final(drive).sectors().len() == old(drive).sectors().len(),
        r is Ok ==> run_written(old(drive).sectors(), final(drive).sectors(), start as int, src@, offset as int, size as int),
        r matches Err(e) ==> e == FSError::IOError,
{
    let sectors = u64_div_ceil(size, 512);
    let ghost s0 = drive.sectors();
    let mut i: u64 = 0;
    while i < sectors
        invariant
            drive.sectors().len() == old(drive).sectors().len(),
            s0 == old(drive).sectors(),
            sectors == div_ceil(size as int, 512),
            i <= sectors,
            i > 0 ==> start + i <= s0.len(),
            forall|k: int| 0 <= k < i * 512 ==> #[trigger] run_byte(drive.sectors(), start as int, k)
                == written_byte(src@, offset as int, size as int, k),
            forall|l: int| 0 <= l < s0.len() && !(start <= l < start + i) ==> #[trigger] drive.sectors()[l] == s0[l],
        decreases sectors - i,
    {
        if start > u64::MAX - i {
            return Err(FSError::IOError);
        }
        let mut buf = [0u8; 512];
        let mut j: usize = 0;
        while j < 512
            invariant
                j <= 512,
                i < sectors,
                forall|m: int| 0 <= m < j ==> #[trigger] buf@[m] == written_byte(src@, offset as int, size as int, i * 512 + m),
            decreases 512 - j,
        {
            let within = (j as u64) < 512 && i <= (u64::MAX - j as u64) / 512;
            if within {
                let k = i * 512 + j as u64;
                let slen: usize = src.len();
                proof {
                    assert(k == i * 512 + j);
                    assert(slen <= u64::MAX);
                }
                if k < size && offset <= u64::MAX - k && offset + k < src.len() as u64 {
                    buf[j] = src[(offset + k) as usize];
                    assert(buf@[j as int] == written_byte(src@, offset as int, size as int, i * 512 + j));
                } else {
                    buf[j] = 0;
                    assert(buf@[j as int] == written_byte(src@, offset as int, size as int, i * 512 + j));
                }
            } else {
                proof {
                    assert(i * 512 + j > u64::MAX) by (nonlinear_arith)
                        requires j < 512, i > (u64::MAX - j) / 512;
                }
                buf[j] = 0;
                assert(buf@[j as int] == written_byte(src@, offset as int, size as int, i * 512 + j));
            }
            j = j + 1;
        }
        let ghost before = drive.sectors();
        write_sector(drive, start + i, &buf)?;
        proof {
            assert forall|k: int| 0 <= k < (i + 1) * 512 implies #[trigger] run_byte(drive.sectors(), start as int, k)
                == written_byte(src@, offset as int, size as int, k) by {
                if k < i * 512 {
                    assert(k / 512 < i) by (nonlinear_arith) requires 0 <= k < i * 512;
                    assert(k / 512 >= 0) by (nonlinear_arith) requires 0 <= k;
                    assert(run_byte(before, start as int, k) == written_byte(src@, offset as int, size as int, k));
                } else {
                    super::disk::lemma_in_stretch(k, 512, i as int);
                    assert(buf@[k - i * 512] == written_byte(src@, offset as int, size as int, k));
                }
            }
        }
        i = i + 1;
    }
    Ok(())
}

/// `d` is the directory that looking `name` up among the entries `c` leads to on a volume whose
/// sectors are `s`: the first entry of that name is a directory, and `d` was read from its
/// chain under its name, or a symbolic link, and `d` was read from the chain it points to.
#[verifier::opaque]
pub open spec fn entered(s: Seq<[u8; 512]>, c: Seq<DirectoryEntry>, name: Seq<char>, d: Directory) -> bool {
    first_named(c, name) matches Some(k) && match c[k] {
        DirectoryEntry::Directory { name: n, link } => d.name == n && d.head == link && loaded_from(s, link, d.children@),
        DirectoryEntry::SymLink { name: _, dest } => d.head == dest && loaded_from(s, dest, d.children@),
        DirectoryEntry::File(_) => false,
    }
}

/// The directories `ds` are those that walking the first `ds.len()` components of `pc` from the
/// root's entries `c` goes through on a volume whose sectors are `s`: the first component is
/// entered from `c`, each further one from the children of the directory before it (see
/// [`entered`]).
pub open spec fn walked(s: Seq<[u8; 512]>, c: Seq<DirectoryEntry>, pc: Seq<Seq<char>>, ds: Seq<Directory>) -> bool {
    &&& ds.len() <= pc.len()
    &&& ds.len() > 0 ==> entered(s, c, pc[0], ds[0])
    &&& forall|j: int| 0 < j < ds.len() ==> entered(s, ds[j - 1].children@, pc[j], #[trigger] ds[j])
}

/// The entries a walk that went through the directories `ds` looks the next component up in:
/// the root's entries `c` at first, then the children of the last directory reached.
pub open spec fn looked_in(c: Seq<DirectoryEntry>, ds: Seq<Directory>) -> Seq<DirectoryEntry> {
    if ds.len() == 0 { c } else { ds.last().children@ }
}

/// `d` is the directory reached by walking all the components of `pc` from the root's entries
/// `c` (see [`walked`]).
pub open spec fn reaches(s: Seq<[u8; 512]>, c: Seq<DirectoryEntry>, pc: Seq<Seq<char>>, d: Directory) -> bool {
    exists|ds: Seq<Directory>| #[trigger] walked(s, c, pc, ds) && ds.len() == pc.len() && ds.len() > 0 && ds.last() == d
}

/// Walking `pc` from the root's entries `c` stops at a missing name: some component is not
/// among the entries the walk looks it up in (see [`looked_in`]).
pub open spec fn walk_misses(s: Seq<[u8; 512]>, c: Seq<DirectoryEntry>, pc: Seq<Seq<char>>) -> bool {
    exists|ds: Seq<Directory>| #[trigger] walked(s, c, pc, ds) && ds.len() < pc.len()
        && first_named(looked_in(c, ds), pc[ds.len() as int]) is None
}

/// Walking `pc` from the root's entries `c` meets a file where a directory is needed: the
/// first entry of some component's name, among the entries the walk looks it up in, is a file.
pub open spec fn walk_meets_file(s: Seq<[u8; 512]>, c: Seq<DirectoryEntry>, pc: Seq<Seq<char>>) -> bool {
    exists|ds: Seq<Directory>| #[trigger] walked(s, c, pc, ds) && ds.len() < pc.len()
        && (first_named(looked_in(c, ds), pc[ds.len() as int]) matches Some(k) && looked_in(c, ds)[k] is File)
}

/// `a` is a copy of `b`: the same variant and fields, a file's data pointers being the same.
pub open spec fn same_entry(a: DirectoryEntry, b: DirectoryEntry) -> bool {
    match a {
        DirectoryEntry::File(f) => b matches DirectoryEntry::File(g) && f.name == g.name && f.size == g.size
            && f.head == g.head && f.links@ == g.links@,
        _ => a == b,
    }
}

/// What asking the size of the entry named `name` among the root's entries `root` gives: a
/// missing name is `FileNotFound`, an entry that is not a file `BadFileType`.
pub open spec fn size_in(root: Seq<DirectoryEntry>, name: Seq<char>) -> Result<u64, FSError> {
    match first_named(root, name) {
        None => Err(FSError::FileNotFound),
        Some(i) => entry_size(root[i]),
    }
}

/// The size of a file entry; any other entry is `BadFileType`.
pub open spec fn entry_size(e: DirectoryEntry) -> Result<u64, FSError> {
    match e {
        DirectoryEntry::File(f) => Ok(f.size),
        _ => Err(FSError::BadFileType),
    }
}

/// How many bytes reading a chain of data pointers `links` into a buffer of `cap` bytes gives:
/// all the bytes they hold, at most `cap`.
pub open spec fn read_size_of(links: Seq<LinkPointer>, cap: int) -> u64 {
    if links_size(links) < cap { links_size(links) as u64 } else { cap as u64 }
}

/// What reading the entry named `name` among the root's entries `root`, on a volume whose
/// sectors are `s`, into a buffer of `cap` bytes may give: a missing name is `FileNotFound`, a
/// directory `BadFileType`; a file gives as many bytes as its data pointers hold, and a symbolic
/// link as many as the data pointers its chain resolves to on `s` hold, at most `cap`, unless a
/// sector cannot be read.
pub open spec fn read_outcome(s: Seq<[u8; 512]>, root: Seq<DirectoryEntry>, name: Seq<char>, cap: int, r: Result<u64, FSError>) -> bool {
    match first_named(root, name) {
        None => r == Err::<u64, FSError>(FSError::FileNotFound),
        Some(i) => match root[i] {
            DirectoryEntry::Directory { .. } => r == Err::<u64, FSError>(FSError::BadFileType),
            DirectoryEntry::File(f) => r == Err::<u64, FSError>(FSError::IOError)
                || r == Ok::<u64, FSError>(read_size_of(f.links@, cap)),
            DirectoryEntry::SymLink { name: _, dest } => r == Err::<u64, FSError>(FSError::IOError)
                || (file_links(s, dest) matches Some(ls) && r == Ok::<u64, FSError>(read_size_of(ls, cap))),
        },
    }
}

/// What looking up the entry named `name` among `root` for an operation on a file refuses: a
/// missing name is `FileNotFound`, an entry that is not a file `BadFileType`.
pub open spec fn file_lookup_refusal(root: Seq<DirectoryEntry>, name: Seq<char>) -> Option<FSError> {
    match first_named(root, name) {
        None => Some(FSError::FileNotFound),
        Some(i) => if root[i] is File { None } else { Some(FSError::BadFileType) },
    }
}

/// `s` with entry `i` taken out, the last entry taking its place.
pub open spec fn swap_removed(s: Seq<DirectoryEntry>, i: int) -> Seq<DirectoryEntry> {
    s.update(i, s.last()).drop_last()
}

/// Looking a name up in a copy of the root's entries finds the copy of the root's first entry
/// of that name.
proof fn lemma_lookup_copy(c: Seq<DirectoryEntry>, root: Seq<DirectoryEntry>, name: Seq<char>, idx: Option<usize>)
    requires
        same_entries(c, root),
        match idx {
            Some(i) => i < c.len() && entry_name(c[i as int]) == name
                && forall|j: int| 0 <= j < i ==> entry_name(c[j]) != name,
            None => forall|j: int| 0 <= j < c.len() ==> entry_name(c[j]) != name,
        },
    ensures
        match idx {
            Some(i) => first_named(root, name) == Some(i as int) && same_entry(c[i as int], root[i as int])
                && (c[i as int] is File <==> root[i as int] is File)
                && (c[i as int] is SymLink <==> root[i as int] is SymLink),
            None => first_named(root, name) is None,
        },
{
    lemma_same_entries_named(c, root, name);
    match idx {
        Some(i) => {
            lemma_first_named_is(c, name, i as int);
            assert(same_entry(c[i as int], root[i as int]));
        },
        None => {
            lemma_first_named_none(c, name);
        },
    }
}

/// The first entry of `root` named `name` is entry `i`, a file whose name and data pointers are
/// those of `f`.
pub open spec fn rewrite_target(root: Seq<DirectoryEntry>, name: Seq<char>, i: int, f: File) -> bool {
    first_named(root, name) == Some(i) && (root[i] matches DirectoryEntry::File(g) && g.name == f.name && g.links@ == f.links@)
}

/// The root's entries went from `a` to `b` by rewriting the file named `name`: its entry keeps
/// its name and the data pointers it holds in memory, the other entries stay.
pub open spec fn root_file_rewritten(a: Seq<DirectoryEntry>, b: Seq<DirectoryEntry>, name: Seq<char>) -> bool {
    match first_named(a, name) {
        None => false,
        Some(i) => match a[i] {
            DirectoryEntry::File(f) => {
                &&& b.len() == a.len()
                &&& forall|j: int| 0 <= j < a.len() && j != i ==> #[trigger] b[j] == a[j]
                &&& match b[i] {
                    DirectoryEntry::File(g) => g.name == f.name && g.links@ == f.links@,
                    _ => false,
                }
            },
            _ => false,
        },
    }
}

/// Copies give the same sizes.
#[verifier::spinoff_prover]
proof fn lemma_same_size(a: Seq<DirectoryEntry>, b: Seq<DirectoryEntry>, name: Seq<char>)
    requires
        same_entries(a, b),
    ensures
        size_in(a, name) == size_in(b, name),
{
    lemma_same_entries_named(a, b, name);
    if first_named(b, name) is Some {
        lemma_first_named_first(b, name);
        let i = first_named(b, name)->0;
        assert(0 <= i < b.len());
        let x = a[i];
        let y = b[i];
        assert(same_entry(x, y));
        assert(entry_size(x) == entry_size(y));
    }
}

/// A path of one component names an entry of the root, and is not the root itself.
pub proof fn lemma_one_component(p: Seq<char>)
    requires
        path_components(p).len() == 1,
    ensures
        p != seq!['/'],
{
    lemma_root_has_no_components();
    assert(joined(Seq::<Seq<char>>::empty()) == seq!['/']);
}

/// Entries that are copies of each other one by one.
pub open spec fn same_entries(a: Seq<DirectoryEntry>, b: Seq<DirectoryEntry>) -> bool {
    a.len() == b.len() && forall|k: int| 0 <= k < a.len() ==> same_entry(#[trigger] a[k], b[k])
}

/// Copies have the same names, so the same first entry of each name.
pub proof fn lemma_same_entries_named(a: Seq<DirectoryEntry>, b: Seq<DirectoryEntry>, name: Seq<char>)
    requires
        same_entries(a, b),
    ensures
        first_named(a, name) == first_named(b, name),
        forall|k: int| 0 <= k < a.len() ==> entry_name(#[trigger] a[k]) == entry_name(b[k]),
{
    assert forall|k: int| 0 <= k < a.len() implies entry_name(#[trigger] a[k]) == entry_name(b[k]) by {
        assert(same_entry(a[k], b[k]));
    }
    if exists|i: int| 0 <= i < b.len() && entry_name(b[i]) == name {
        lemma_first_named_first(b, name);
        let i = first_named(b, name)->0;
        assert forall|j: int| 0 <= j < i implies entry_name(a[j]) != name by {
            assert(entry_name(a[j]) == entry_name(b[j]));
        }
        assert(entry_name(a[i]) == entry_name(b[i]));
        lemma_first_named_is(a, name, i);
    } else {
        assert forall|j: int| 0 <= j < a.len() implies entry_name(a[j]) != name by {
            assert(entry_name(a[j]) == entry_name(b[j]));
        }
    }
}

/// A copy of the file `f`.
fn copy_file(f: &File) -> (r: File)
    ensures
        r.name == f.name && r.size == f.size && r.head == f.head && r.links@ == f.links@,
{
    File { name: f.name, size: f.size, head: f.head, links: copy_links(&f.links) }
}

/// A copy of the entry `e`.
fn copy_entry(e: &DirectoryEntry) -> (r: DirectoryEntry)
    ensures
        same_entry(r, *e),
{
    match e {
        DirectoryEntry::File(f) => DirectoryEntry::File(copy_file(f)),
        DirectoryEntry::Directory { name, link } => DirectoryEntry::Directory { name: *name, link: *link },
        DirectoryEntry::SymLink { name, dest } => DirectoryEntry::SymLink { name: *name, dest: *dest },
    }
}

/// A copy of `v`, entry by entry.
fn clone_entries(v: &Vec<DirectoryEntry>) -> (r: Vec<DirectoryEntry>)
    ensures
        r@.len() == v@.len(),
        forall|k: int| 0 <= k < v@.len() ==> entry_name(#[trigger] r@[k]) == entry_name(v@[k])
            && (r@[k] is File <==> v@[k] is File),
        same_entries(r@, v@),
{
    let mut r: Vec<DirectoryEntry> = Vec::new();
    let mut i: usize = 0;
    while i < v.len()
        invariant
            i <= v@.len(),
            r@.len() == i,
            forall|k: int| 0 <= k < i ==> same_entry(#[trigger] r@[k], v@[k]),
            forall|k: int| 0 <= k < i ==> entry_name(#[trigger] r@[k]) == entry_name(v@[k])
                && (r@[k] is File <==> v@[k] is File),
        decreases v@.len() - i,
    {
        let e = match &v[i] {
            DirectoryEntry::File(f) => DirectoryEntry::File(File { name: f.name, size: f.size, head: f.head, links: copy_links(&f.links) }),
            DirectoryEntry::Directory { name, link } => DirectoryEntry::Directory { name: *name, link: *link },
            DirectoryEntry::SymLink { name, dest } => DirectoryEntry::SymLink { name: *name, dest: *dest },
        };
        r.push(e);
        i = i + 1;
    }
    r
}

/// A copy of `v`.
fn copy_links(v: &Vec<LinkPointer>) -> (r: Vec<LinkPointer>)
    ensures
        r@ == v@,
{
    let mut r: Vec<LinkPointer> = Vec::new();
    let mut i: usize = 0;
    while i < v.len()
        invariant
            i <= v@.len(),
            r@ == v@.subrange(0, i as int),
        decreases v@.len() - i,
    {
        r.push(v[i]);
        i = i + 1;
        assert(r@ =~= v@.subrange(0, i as int));
    }
    assert(v@.subrange(0, v@.len() as int) =~= v@);
    r
}

/// Every link of `links` lies, with its `per_link` sectors, in the area of `bitmap` (see
/// [`links_in_area`]).
fn links_within(bitmap: &BitmapAllocator, links: &Vec<LinkPointer>, direct: bool) -> (r: bool)
    requires
        bitmap.wf(),
    ensures
        r == links_in_area(links@, bitmap.base(), bitmap.bits().len() as int, direct),
{
    let base = bitmap.base_lba();
    let len = bitmap.bit_count();
    let mut i: usize = 0;
    while i < links.len()
        invariant
            base == bitmap.base(),
            len == bitmap.bits().len(),
            i <= links@.len(),
            forall|k: int| 0 <= k < i ==> base <= #[trigger] links@[k].start
                && links@[k].start - base + (if direct { link_sectors(links@[k]) } else { 1 }) <= len,
        decreases links@.len() - i,
    {
        let l = links[i];
        let n: u64 = if direct { u64_div_ceil(l.size, 512) } else { 1 };
        if l.start < base || l.start - base > len || n > len - (l.start - base) {
            return false;
        }
        i = i + 1;
    }
    true
}

impl<D: StorageDrive> LemonFS<D> {
    /// Reads the file `path` into `dest`, as much as fits: the bytes of its data pointers, or
    /// of those a symbolic link's chain resolves to, in order. Returns the number of bytes read.
    /// A directory is `BadFileType`; the root itself is `IsRoot`.
    #[verifier::rlimit(40)]
    pub fn read(&mut self, path: String, dest: &mut Vec<u8>) -> (r: Result<u64, FSError>)
        ensures
            final(self).image() == old(self).image(),
            final(self).wf() == old(self).wf(),
            final(self).sb() == old(self).sb(),
            final(self).root_entries() == old(self).root_entries(),
            final(dest)@.len() == old(dest)@.len(),
            path@ == seq!['/'] ==> r == Err::<u64, FSError>(FSError::IsRoot),
            r matches Ok(n) ==> n <= old(dest)@.len(),
            path_components(path@).len() == 1
                ==> read_outcome(old(self).image(), old(self).root_entries(), path_components(path@)[0], old(dest)@.len() as int, r),
            path_components(path@).len() == 1 && r is Ok
                && (first_named(old(self).root_entries(), path_components(path@)[0]) matches Some(i)
                    && old(self).root_entries()[i] is File)
                ==> read_back(old(dest)@, final(dest)@,
                    file_bytes(old(self).image(),
                        old(self).root_entries()[first_named(old(self).root_entries(), path_components(path@)[0])->0]->File_0.links@),
                    r->Ok_0 as int),
            path_components(path@).len() == 1 && r is Ok
                && (first_named(old(self).root_entries(), path_components(path@)[0]) matches Some(i)
                    && old(self).root_entries()[i] is SymLink)
                ==> read_back(old(dest)@, final(dest)@,
                    file_bytes(old(self).image(), file_links(old(self).image(),
                        old(self).root_entries()[first_named(old(self).root_entries(), path_components(path@)[0])->0]->dest)->0),
                    r->Ok_0 as int),
    {
        let ghost path0 = path@;
        let p = Path::from_string(path);
        proof { if path_components(path0).len() == 1 { lemma_one_component(path0); } }
        if p.is_root() {
            return Err(FSError::IsRoot);
        }
        let parent = self.get_parent(&p)?;
        let name = p.name();
        let child = parent.get_child(&name);
        let ghost mut known = false;
        let ghost mut fl: Seq<LinkPointer> = Seq::empty();
        let ghost mut linked = false;
        let ghost mut target = LinkPointer { start: 0, size: 0 };
        proof {
            if path_components(path0).len() == 1 {
                let root = old(self).root_entries();
                lemma_same_entries_named(parent.children@, root, name@);
                match child {
                    Some(e) => {
                        let c = parent.children@;
                        let i0 = choose|k: int| 0 <= k < c.len() && c[k] == *e && entry_name(*e) == name@
                            && forall|j: int| 0 <= j < k ==> entry_name(c[j]) != name@;
                        lemma_first_named_is(c, name@, i0);
                        assert(same_entry(c[i0], root[i0]));
                        if let DirectoryEntry::File(f) = root[i0] {
                            known = true;
                            fl = f.links@;
                        }
                        if let DirectoryEntry::SymLink { name: _, dest: t } = root[i0] {
                            linked = true;
                            target = t;
                        }
                    },
                    None => {
                        lemma_first_named_none(parent.children@, name@);
                    },
                }
            }
        }
        let links = match child {
            None => return Err(FSError::FileNotFound),
            Some(DirectoryEntry::Directory { name: _, link: _ }) => return Err(FSError::BadFileType),
            Some(DirectoryEntry::File(f)) => copy_links(&f.links),
            Some(DirectoryEntry::SymLink { name: _, dest: link }) => resolve_links(&mut self.drive, *link)?,
        };
        assert(known ==> links@ == fl);
        assert(linked ==> file_links(old(self).image(), target) == Some(links@));
        let size = match checked_total(&links) {
            Some(t) => t,
            None => return Err(FSError::IOError),
        };
        let cap = dest.len() as u64;
        let read_size = if size < cap { size } else { cap };
        let ghost outcome_ok = path_components(path0).len() == 1 ==> (
            read_outcome(old(self).image(), old(self).root_entries(), path_components(path0)[0], old(dest)@.len() as int, Err(FSError::IOError))
            && read_outcome(old(self).image(), old(self).root_entries(), path_components(path0)[0], old(dest)@.len() as int, Ok(read_size)));
        assert(outcome_ok);
        let mut offset: u64 = 0;
        let mut i: usize = 0;
        proof {
            assert(links@.subrange(0, 0) =~= Seq::<LinkPointer>::empty());
            lemma_links_size_prefix(links@, links@.len() as int);
            assert(links@.subrange(0, links@.len() as int) =~= links@);
        }
        while i < links.len()
            invariant
                i <= links@.len(),
                size == links_size(links@),
                read_size <= size,
                offset == (if links_size(links@.subrange(0, i as int)) < read_size { links_size(links@.subrange(0, i as int)) }
                    else { read_size as int }),
                read_back(old(dest)@, dest@, file_bytes(old(self).image(), links@), offset as int),
                i == links@.len() ==> links@.subrange(0, i as int) == links@,
                known ==> links@ == fl,
                linked ==> file_links(old(self).image(), target) == Some(links@),
                self.image() == old(self).image(),
                self.wf() == old(self).wf(),
                self.sb() == old(self).sb(),
                self.root_entries() == old(self).root_entries(),
                dest@.len() == old(dest)@.len(),
                cap == dest@.len(),
                read_size <= cap,
                offset <= read_size,
                p@ != seq!['/'],
                p@ == path@,
                path0 == path@,
                outcome_ok,
                outcome_ok == (path_components(path0).len() == 1 ==> (
                    read_outcome(old(self).image(), old(self).root_entries(), path_components(path0)[0], old(dest)@.len() as int, Err(FSError::IOError))
                    && read_outcome(old(self).image(), old(self).root_entries(), path_components(path0)[0], old(dest)@.len() as int, Ok(read_size)))),
            ensures
                offset == read_size,
                read_back(old(dest)@, dest@, file_bytes(old(self).image(), links@), offset as int),
                known ==> links@ == fl,
                linked ==> file_links(old(self).image(), target) == Some(links@),
                self.image() == old(self).image(),
                self.wf() == old(self).wf(),
                self.sb() == old(self).sb(),
                self.root_entries() == old(self).root_entries(),
                outcome_ok,
            decreases links@.len() - i,
        {
            if offset >= read_size {
                break;
            }
            let link = links[i];
            let rest = read_size - offset;
            let bytes = if rest < link.size { rest } else { link.size };
            let sectors = u64_div_ceil(link.size, 512);
            if sectors == 0 {
                return Err(FSError::IOError);
            }
            proof {
                vstd::arithmetic::div_mod::lemma_fundamental_div_mod(link.size + 511, 512);
            }
            let ghost d_before = dest@;
            let dl = dest.len();
            assert(offset <= dl);
            assert((offset as usize) as int == offset as int);
            read_into(&mut self.drive, link.start, sectors, bytes, dest, offset as usize)?;
            proof {
                let pre = links@.subrange(0, i as int);
                let post = links@.subrange(0, i + 1);
                assert(post.drop_last() =~= pre);
                lemma_file_bytes_prefix(old(self).image(), links@, i + 1);
                lemma_file_bytes_len(old(self).image(), pre);
                lemma_links_size_prefix(links@, i + 1);
                assert(offset == links_size(pre));
                let fb = file_bytes(old(self).image(), links@);
                assert forall|k: int| 0 <= k < offset + bytes implies #[trigger] dest@[k] == fb[k] by {
                    if k >= offset {
                        let j = k - offset;
                        assert(dest@[offset + j] == run_byte(old(self).image(), link.start as int, j));
                        assert(file_bytes(old(self).image(), post)[k] == run_byte(old(self).image(), link.start as int, j));
                    }
                }
            }
            offset = offset + bytes;
            i = i + 1;
            proof {
                if i == links@.len() {
                    assert(links@.subrange(0, i as int) =~= links@);
                }
            }
        }
        Ok(read_size)
    }

    /// Writes `src` as the contents of the file `path`, padded with zeros to whole sectors
    /// (see [`plan_rewrite`]): the old link blocks are freed and zeroed, the file keeps its
    /// sectors as far as the new contents reach, gets the missing ones and frees and zeroes
    /// the rest; its new chain is built and the data written; its entry takes the new head and
    /// size, and its directory is written back. A missing name is `FileNotFound`, a directory
    /// or a symbolic link `BadFileType`, the root `IsRoot`. A chain outside the area the bitmap
    /// covers is an I/O error.
    #[verifier::rlimit(40)]
    pub fn write(&mut self, path: String, src: &[u8]) -> (r: Result<(), FSError>)
        requires
            old(self).wf(),
            src@.len() > 0,
        ensures
            final(self).wf(),
            final(self).sb() == old(self).sb(),
            final(self).image().len() == old(self).image().len(),
            path@ == seq!['/'] ==> r == Err::<(), FSError>(FSError::IsRoot) && final(self).image() == old(self).image(),
            path_components(path@).len() == 1 ==> (file_lookup_refusal(old(self).root_entries(), path_components(path@)[0]) matches Some(e)
                ==> r == Err::<(), FSError>(e) && final(self).image() == old(self).image()),
            path_components(path@).len() == 1 && r is Ok
                ==> root_file_rewritten(old(self).root_entries(), final(self).root_entries(), path_components(path@)[0]),
    {
        let ghost path0 = path@;
        let p = Path::from_string(path);
        proof { if path_components(path0).len() == 1 { lemma_one_component(path0); } }
        if p.is_root() {
            return Err(FSError::IsRoot);
        }
        let mut parent = self.get_parent(&p)?;
        let name = p.name();
        let found = parent.find_child_idx(&name);
        proof {
            if path_components(path0).len() == 1 {
                lemma_lookup_copy(parent.children@, old(self).root_entries(), name@, found);
            }
        }
        let dentry_index = match found {
            Some(i) => i,
            None => return Err(FSError::FileNotFound),
        };
        let file = match &parent.children[dentry_index] {
            DirectoryEntry::File(f) => copy_file(f),
            _ => return Err(FSError::BadFileType),
        };
        proof {
            if path_components(path0).len() == 1 {
                assert(same_entry(parent.children@[dentry_index as int], old(self).root_entries()[dentry_index as int]));
                assert(rewrite_target(old(self).root_entries(), path_components(path0)[0], dentry_index as int, file));
            }
        }
        let (direct, indirect) = trace(&mut self.drive, file.head)?;
        let len = src.len();
        if len > usize::MAX - 511 {
            return Err(FSError::NoSpace);
        }
        let sectors: usize = len / 512 + if len % 512 != 0 { 1 } else { 0 };
        proof {
            vstd::arithmetic::div_mod::lemma_fundamental_div_mod(len as int, 512);
            assert(sectors * 512 <= len + 511);
        }
        if !links_within(&self.bitmap, &direct, true) || !links_within(&self.bitmap, &indirect, false) {
            return Err(FSError::IOError);
        }
        let base = self.bitmap.base_lba();
        let nbits = self.bitmap.bit_count();
        if nbits > u64::MAX - base || sectors as u64 > u64::MAX - base - nbits {
            return Err(FSError::NoSpace);
        }
        let plan = plan_rewrite(&mut self.bitmap, direct.as_slice(), indirect.as_slice(), sectors)?;
        let mut z: usize = 0;
        while z < plan.zero_sectors.len()
            invariant
                self.wf(),
                self.sb() == old(self).sb(),
                self.image().len() == old(self).image().len(),
                p@ != seq!['/'],
                p@ == path@,
                path0 == path@,
                path_components(path0).len() == 1 ==> file_lookup_refusal(old(self).root_entries(), path_components(path0)[0]) is None,
                self.root_entries() == old(self).root_entries(),
                dentry_index < parent.children@.len(),
                path_components(path0).len() == 1 ==> rewrite_target(old(self).root_entries(), path_components(path0)[0],
                    dentry_index as int, file),
            decreases plan.zero_sectors@.len() - z,
        {
            zero_sectors(&mut self.drive, plan.zero_sectors[z], 1)?;
            z = z + 1;
        }
        let mut w: usize = 0;
        while w < plan.link_blocks.len()
            invariant
                self.wf(),
                self.sb() == old(self).sb(),
                self.image().len() == old(self).image().len(),
                p@ != seq!['/'],
                p@ == path@,
                path0 == path@,
                path_components(path0).len() == 1 ==> file_lookup_refusal(old(self).root_entries(), path_components(path0)[0]) is None,
                self.root_entries() == old(self).root_entries(),
                dentry_index < parent.children@.len(),
                path_components(path0).len() == 1 ==> rewrite_target(old(self).root_entries(), path_components(path0)[0],
                    dentry_index as int, file),
            decreases plan.link_blocks@.len() - w,
        {
            let (lba, ref block) = plan.link_blocks[w];
            write_link_block(&mut self.drive, lba, block)?;
            w = w + 1;
        }
        let head = plan.head;
        let links = resolve_links(&mut self.drive, head)?;
        let total = match checked_total(&links) {
            Some(t) => t,
            None => return Err(FSError::IOError),
        };
        let mut offset: u64 = 0;
        let mut i: usize = 0;
        while i < links.len()
            invariant
                self.wf(),
                self.sb() == old(self).sb(),
                self.image().len() == old(self).image().len(),
                p@ != seq!['/'],
                p@ == path@,
                path0 == path@,
                path_components(path0).len() == 1 ==> file_lookup_refusal(old(self).root_entries(), path_components(path0)[0]) is None,
                self.root_entries() == old(self).root_entries(),
                dentry_index < parent.children@.len(),
                path_components(path0).len() == 1 ==> rewrite_target(old(self).root_entries(), path_components(path0)[0],
                    dentry_index as int, file),
            decreases links@.len() - i,
        {
            let link = links[i];
            write_from(&mut self.drive, link.start, src, offset, link.size)?;
            offset = if offset <= u64::MAX - link.size { offset + link.size } else { u64::MAX };
            i = i + 1;
        }
        let updated = File { name: file.name, size: total, head, links: file.links };
        parent.children.set(dentry_index, DirectoryEntry::File(updated));
        parent.sync(&mut self.drive, &mut self.bitmap)?;
        if p.parent().is_root() {
            match self.root_position(&name) {
                Some(i) => {
                    let e = copy_entry(&parent.children[dentry_index]);
                    proof {
                        if path_components(path0).len() == 1 {
                            lemma_first_named_is(self.root@, name@, i as int);
                        }
                    }
                    self.root.set(i, e);
                }
                None => {}
            }
        }
        Ok(())
    }

    /// Points the symbolic link `symlink_path` at what `dest_path` names: a file's chain, a
    /// directory's blocks or another link's target. The link is looked up in the directory
    /// above its own directory. A name that is not a symbolic link is `BadFileType`; the root
    /// is `IsRoot`.
    pub fn route_symlink(&mut self, symlink_path: String, dest_path: String) -> (r: Result<(), FSError>)
        requires
            old(self).wf(),
        ensures
            final(self).wf(),
            final(self).sb() == old(self).sb(),
            final(self).image().len() == old(self).image().len(),
            symlink_path@ == seq!['/'] ==> r == Err::<(), FSError>(FSError::IsRoot) && final(self).image() == old(self).image(),
            path_components(symlink_path@).len() == 1 ==> (match first_named(old(self).root_entries(), path_components(symlink_path@)[0]) {
                None => r == Err::<(), FSError>(FSError::FileNotFound) && final(self).image() == old(self).image(),
                Some(i) => !(old(self).root_entries()[i] is SymLink)
                    ==> r == Err::<(), FSError>(FSError::BadFileType) && final(self).image() == old(self).image(),
            }),
    {
        let ghost path0 = symlink_path@;
        let sym_path = Path::from_string(symlink_path);
        proof { if path_components(path0).len() == 1 { lemma_one_component(path0); } }
        if sym_path.is_root() {
            return Err(FSError::IsRoot);
        }
        let sym_parent = sym_path.parent();
        proof {
            if path_components(path0).len() == 1 {
                lemma_root_has_no_components();
                assert(path_components(path0).subrange(0, 0) =~= Seq::<Seq<char>>::empty());
            }
        }
        let mut parent = self.get_parent(&sym_parent)?;
        let sym_name = sym_path.name();
        let found = parent.find_child_idx(&sym_name);
        proof {
            if path_components(path0).len() == 1 {
                lemma_lookup_copy(parent.children@, old(self).root_entries(), sym_name@, found);
            }
        }
        let dentry_idx = match found {
            Some(i) => i,
            None => return Err(FSError::FileNotFound),
        };
        let link_name = match &parent.children[dentry_idx] {
            DirectoryEntry::SymLink { name, dest: _ } => *name,
            _ => return Err(FSError::BadFileType),
        };
        let dest_path = Path::from_string(dest_path);
        let dest_parent = self.get_parent(&dest_path)?;
        let dest_name = dest_path.name();
        let dest_index = match dest_parent.find_child_idx(&dest_name) {
            Some(i) => i,
            None => return Err(FSError::FileNotFound),
        };
        let target = match &dest_parent.children[dest_index] {
            DirectoryEntry::File(f) => f.head,
            DirectoryEntry::Directory { name: _, link } => *link,
            DirectoryEntry::SymLink { name: _, dest } => *dest,
        };
        parent.children.set(dentry_idx, DirectoryEntry::SymLink { name: link_name, dest: target });
        parent.sync(&mut self.drive, &mut self.bitmap)?;
        if sym_path.parent().is_root() {
            match self.root_position(&sym_name) {
                Some(i) => {
                    let e = parent.children[dentry_idx].clone();
                    self.root.set(i, e);
                }
                None => {}
            }
        }
        Ok(())
    }

    /// Writes the superblock (see [`write_sb`]) and the bitmap back.
    pub fn sync(&mut self) -> (r: Result<(), FSError>)
        requires
            old(self).wf(),
        ensures
            final(self).wf(),
            final(self).sb() == old(self).sb(),
            final(self).root_entries() == old(self).root_entries(),
            final(self).image().len() == old(self).image().len(),
            final(self).allocation() == old(self).allocation(),
            r is Ok ==> forall|k: int| 0 <= k < old(self).bitmap_blocks()
                ==> #[trigger] block_synced(final(self).image(), old(self).sb().bitmap_start as int, old(self).allocation(), k),
            r is Ok ==> old(self).image().len() > 0,
            r is Ok && old(self).sb().bitmap_start > 0
                ==> final(self).image()[0]@ == spec_sealed(old(self).sb()).image(),
            r is Ok && old(self).sb().bitmap_start + old(self).bitmap_blocks() < old(self).image().len()
                ==> final(self).image()[old(self).image().len() - 1]@ == spec_sealed(old(self).sb()).image(),
            r matches Err(e) ==> e == FSError::IOError,
    {
        write_sb(&mut self.drive, &self.superblock)?;
        let ghost s1 = self.drive.sectors();
        let r = self.bitmap.sync(&mut self.drive, self.superblock.bitmap_start);
        proof {
            if r is Ok {
                if self.superblock.bitmap_start > 0 {
                    assert(self.drive.sectors()[0] == s1[0]);
                }
                if self.superblock.bitmap_start + self.bitmap.num_blocks() < s1.len() {
                    assert(self.drive.sectors()[s1.len() - 1] == s1[s1.len() - 1]);
                }
            }
        }
        r
    }

    /// Mounts the partition: reads its superblock (see [`get_superblock`]), formatting the
    /// partition when neither copy is intact (see [`format`]); loads the allocator from the
    /// bitmap blocks (see [`load_allocator`]) and the root directory's entries. A superblock
    /// whose layout leaves no root block, or whose bitmap does not fit the machine, is
    /// `BadSuperblock`.
    pub fn init(drive: D) -> (r: Result<Self, FSError>)
        ensures
            r matches Ok(fs) ==> fs.wf() && fs.image().len() == drive.sectors().len() && ({
                let s = drive.sectors();
                ||| (fs.image() == s && sb_intact(fs.sb()) && s.len() > 0
                    && (fs.sb().image() == s[0]@ || fs.sb().image() == s[s.len() - 1]@))
                ||| (fs.sb().bitmap_start == 1 && fs.sb().data_start == 1 + (s.len() + 0xFFF) / 0x1000
                    && fs.sb().data_end == s.len() - 2 && fs.image()[0]@ == spec_sealed(fs.sb()).image())
            }),
            r matches Err(e) ==> e == FSError::IOError || e == FSError::BadSuperblock || e == FSError::NoSpace,
    {
        let mut drive = drive;
        let ghost s0 = drive.sectors();
        let sb = match get_superblock(&mut drive) {
            Ok((sb, _backup)) => sb,
            Err(FSError::BadSuperblock) => format(&mut drive)?,
            Err(e) => return Err(e),
        };
        let mut blocks: Vec<BitmapBlock> = Vec::new();
        let mut lba = sb.bitmap_start;
        let ghost s1 = drive.sectors();
        while lba < sb.data_start
            invariant
                drive.sectors() == s1,
            decreases sb.data_start - lba,
        {
            let b = read_sector(&mut drive, lba)?;
            blocks.push(BitmapBlock(b));
            lba = lba + 1;
        }
        let n = blocks.len();
        if sb.data_end == 0 || n > usize::MAX / 4096 || (n as u64) * 4096 > u64::MAX - sb.data_start {
            return Err(FSError::BadSuperblock);
        }
        if !(sb.data_end - 1 < sb.data_start || sb.data_end - 1 - sb.data_start < usize::MAX as u64) {
            return Err(FSError::BadSuperblock);
        }
        proof {
            assert(n * 4096 <= usize::MAX) by (nonlinear_arith)
                requires n <= usize::MAX / 4096;
        }
        let bitmap = load_allocator(&sb, blocks);
        let root_ptr = LinkPointer { start: sb.data_end, size: 512 };
        let root_block = read_dir_block(&mut drive, sb.data_end)?;
        let slash = "/";
        let root_dir = Directory::from_dir_block(&mut drive, &root_block, Filename::from_str(slash), root_ptr)?;
        Ok(LemonFS { drive, superblock: sb, bitmap, root: root_dir.children })
    }
}

} // verus!
