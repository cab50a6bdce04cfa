//! The decisions of the LemonFS operations: formatting, loading the allocator, and creating,
//! removing and sizing the entries of a directory.

use vstd::prelude::*;
use super::bitmap::{BitmapAllocator, first_fit, set_range};
use super::directory::{Directory, DirectoryEntry, FileType, entry_name, first_named};
use super::disk::{BitmapBlock, DirEntryFlags, Filename, SuperBlock, name_bytes, DIR_ALL_FLAGS, DIR_IS_DIR,
    DIR_IS_SYMLINK, BITS_PER_BLOCK};
use super::superblock::{seal_sb, spec_sealed};
use crate::fs::FSError;
use vstd::string::StringSliceAdditionalSpecFns;

verus! {

/// What formatting a partition writes: the superblock, written sealed to the first and the last
/// sector, and the runs of sectors to zero (the bitmap, then the root directory block).
pub struct FormatPlan {
    pub superblock: SuperBlock,
    pub sealed: SuperBlock,
    pub zero_runs: Vec<(u64, u64)>,
}

/// Plans formatting a partition of `sector_count` sectors; one of fewer than 0x1000 sectors has
/// no room for LemonFS.
pub fn plan_format(sector_count: u64) -> (r: Result<FormatPlan, FSError>)
    ensures
        sector_count < 0x1000 ==> r == Err::<FormatPlan, FSError>(FSError::NoSpace),
        sector_count >= 0x1000 ==> (r matches Ok(p) && {
            &&& p.superblock.bitmap_start == 1
            &&& p.superblock.data_start == 1 + (sector_count + 0xFFF) / 0x1000
            &&& p.superblock.data_end == sector_count - 2
            &&& p.superblock.flags.bits == 0
            &&& p.superblock.checksum == 0
            &&& p.sealed == spec_sealed(p.superblock)
            &&& p.zero_runs@ == seq![
                (p.superblock.bitmap_start, (p.superblock.data_start - p.superblock.bitmap_start) as u64),
                (p.superblock.data_end, 1u64)]
        }),
{
    let sb = match SuperBlock::new(sector_count) {
        Some(sb) => sb,
        None => return Err(FSError::NoSpace),
    };
    let sealed = seal_sb(&sb);
    let mut zero_runs: Vec<(u64, u64)> = Vec::new();
    zero_runs.push((sb.bitmap_start, sb.data_start - sb.bitmap_start));
    zero_runs.push((sb.data_end, 1));
    Ok(FormatPlan { superblock: sb, sealed, zero_runs })
}

/// The bits of the bitmap blocks `blocks`, block after block.
pub open spec fn bitmap_bits(blocks: Seq<BitmapBlock>) -> Seq<bool>
    decreases blocks.len(),
{
    if blocks.len() == 0 { Seq::empty() } else { bitmap_bits(blocks.drop_last()) + blocks.last().bits() }
}

proof fn lemma_bitmap_bits_len(blocks: Seq<BitmapBlock>)
    ensures
        bitmap_bits(blocks).len() == blocks.len() * BITS_PER_BLOCK,
    decreases blocks.len(),
{
    if blocks.len() > 0 {
        lemma_bitmap_bits_len(blocks.drop_last());
        assert(blocks.len() * BITS_PER_BLOCK == (blocks.len() - 1) * BITS_PER_BLOCK + BITS_PER_BLOCK) by (nonlinear_arith);
    }
}

/// The allocator of a partition whose superblock is `sb` and whose bitmap blocks are `blocks`:
/// bit 0 stands for the first data block, and every block past the last usable one is taken.
pub fn load_allocator(sb: &SuperBlock, blocks: Vec<BitmapBlock>) -> (r: BitmapAllocator)
    requires
        sb.data_end >= 1,
        blocks@.len() * BITS_PER_BLOCK <= usize::MAX,
        sb.data_start + blocks@.len() * BITS_PER_BLOCK <= u64::MAX,
        sb.data_end - 1 < sb.data_start || sb.data_end - 1 - sb.data_start < usize::MAX,
    ensures
        r.wf(),
        r.base() == sb.data_start,
        r.num_blocks() == blocks@.len(),
        r.bits() == (if sb.data_end - 1 < sb.data_start {
            bitmap_bits(blocks@)
        } else {
            Seq::new(bitmap_bits(blocks@).len(), |i: int| if i > sb.data_end - 1 - sb.data_start { true } else { bitmap_bits(blocks@)[i] })
        }),
{
    let mut bitmap = BitmapAllocator::new(sb.data_start);
    proof { bitmap.lemma_len(); }
    let n = blocks.len();
    let mut i: usize = 0;
    assert(blocks@.subrange(0, 0) =~= Seq::<BitmapBlock>::empty());
    while i < n
        invariant
            n == blocks@.len(),
            blocks@.len() * BITS_PER_BLOCK <= usize::MAX,
            sb.data_start + blocks@.len() * BITS_PER_BLOCK <= u64::MAX,
            i <= n,
            bitmap.wf(),
            bitmap.base() == sb.data_start,
            bitmap.num_blocks() == i,
            bitmap.bits() == bitmap_bits(blocks@.subrange(0, i as int)),
        decreases n - i,
    {
        proof {
            assert((i + 1) * BITS_PER_BLOCK <= n * BITS_PER_BLOCK) by (nonlinear_arith) requires i < n;
            assert(blocks@.subrange(0, i + 1).drop_last() =~= blocks@.subrange(0, i as int));
        }
        bitmap.add_block(Box::new(blocks[i]));
        i = i + 1;
    }
    assert(blocks@.subrange(0, n as int) =~= blocks@);
    proof {
        lemma_bitmap_bits_len(blocks@);
        bitmap.lemma_len();
    }
    bitmap.reserve_from(sb.data_end - 1);
    bitmap
}

/// What creating the entry `name` in `parent` with `flags` gives, on an allocator with bits `bits`
/// and `nb` blocks whose bit 0 stands for `base`: an existing name is refused, then flags outside
/// the known ones, then a directory or a file gets its first block (`NoSpace` if there is none),
/// while a symbolic link gets none.
pub open spec fn create_outcome(children: Seq<DirectoryEntry>, name: Seq<char>, name_raw: Seq<u8>, flags: u64,
    bits: Seq<bool>, base: u64, nb: int, r: Result<DirectoryEntry, FSError>, bits_after: Seq<bool>) -> bool {
    let fb = flags as u8;
    if first_named(children, name) is Some {
        r == Err::<DirectoryEntry, FSError>(FSError::FileExists) && bits_after == bits
    } else if fb & !DIR_ALL_FLAGS != 0 {
        r == Err::<DirectoryEntry, FSError>(FSError::BadFlags) && bits_after == bits
    } else if fb & DIR_IS_SYMLINK == DIR_IS_SYMLINK && fb & DIR_IS_DIR != DIR_IS_DIR {
        bits_after == bits && (r matches Ok(e) && (e matches DirectoryEntry::SymLink { name: n, dest }
            && n.0@ == name_bytes(name_raw) && dest == (super::disk::LinkPointer { start: 0, size: 0 })))
    } else {
        match first_fit(bits, nb, 1) {
            None => r == Err::<DirectoryEntry, FSError>(FSError::NoSpace) && bits_after == bits,
            Some(st) => bits_after == set_range(bits, st, 1, true) && (r matches Ok(e)
                && entry_created(e, name_raw, (base + st) as u64, fb & DIR_IS_DIR == DIR_IS_DIR)),
        }
    }
}

/// `e` is a new directory (or file) named by the bytes `name_raw` whose first block is `start`.
pub open spec fn entry_created(e: DirectoryEntry, name_raw: Seq<u8>, start: u64, is_dir: bool) -> bool {
    if is_dir {
        e matches DirectoryEntry::Directory { name, link } && name.0@ == name_bytes(name_raw)
            && link == (super::disk::LinkPointer { start, size: 512 })
    } else {
        e matches DirectoryEntry::File(f) && f.size == 0 && f.links@.len() == 0
            && f.head == (super::disk::LinkPointer { start, size: 1 })
    }
}

/// Creates the entry named `name` in `parent` with the flags `flags` (see [`create_outcome`]).
/// The entry is not yet added to the directory.
pub fn create_entry(parent: &Directory, name: &String, flags: u64, bitmap: &mut BitmapAllocator) -> (r: Result<DirectoryEntry, FSError>)
    requires
        old(bitmap).wf(),
    ensures
        final(bitmap).wf(),
        final(bitmap).base() == old(bitmap).base(),
        final(bitmap).num_blocks() == old(bitmap).num_blocks(),
        create_outcome(parent.children@, name@, vstd::utf8::encode_utf8(name@), flags, old(bitmap).bits(), old(bitmap).base(),
            old(bitmap).num_blocks() as int, r, final(bitmap).bits()),
{
    if parent.find_child_idx(name).is_some() {
        return Err(FSError::FileExists);
    }
    let dflags = match DirEntryFlags::from_bits(flags as u8) {
        Some(f) => f,
        None => return Err(FSError::BadFlags),
    };
    let filetype = FileType::from_dirflags(dflags);
    let fname = Filename::from_str(name.as_str());
    let start = match filetype {
        FileType::Directory | FileType::File => match bitmap.allocate(1) {
            Some(lba) => lba,
            None => return Err(FSError::NoSpace),
        },
        FileType::Symlink => 0,
    };
    let r = DirectoryEntry::new(fname, start, &filetype);
    Ok(r)
}

/// Takes the entry named `name` out of `parent`, the last entry taking its place.
pub fn take_child(parent: &mut Directory, name: &String) -> (r: Result<DirectoryEntry, FSError>)
    ensures
        match first_named(old(parent).children@, name@) {
            None => r == Err::<DirectoryEntry, FSError>(FSError::FileNotFound) && *final(parent) == *old(parent),
            Some(i) => r == Ok::<DirectoryEntry, FSError>(old(parent).children@[i])
                && final(parent).children@ == (if i == old(parent).children@.len() - 1 {
                    old(parent).children@.drop_last()
                } else {
                    old(parent).children@.update(i, old(parent).children@.last()).drop_last()
                })
                && final(parent).name == old(parent).name && final(parent).parent == old(parent).parent
                && final(parent).head == old(parent).head,
        },
{
    match parent.find_child_idx(name) {
        Some(i) => {
            proof { lemma_first_named_is(old(parent).children@, name@, i as int); }
            let e = parent.children.swap_remove(i);
            Ok(e)
        },
        None => {
            proof { lemma_first_named_none(parent.children@, name@); }
            Err(FSError::FileNotFound)
        },
    }
}

/// The size of the file named `name` in `parent`: a missing name is `FileNotFound`, an entry that
/// is not a file `BadFileType`.
pub fn file_size(parent: &Directory, name: &String) -> (r: Result<u64, FSError>)
    ensures
        match first_named(parent.children@, name@) {
            None => r == Err::<u64, FSError>(FSError::FileNotFound),
            Some(i) => match parent.children@[i] {
                DirectoryEntry::File(f) => r == Ok::<u64, FSError>(f.size),
                _ => r == Err::<u64, FSError>(FSError::BadFileType),
            },
        },
{
    match parent.find_child_idx(name) {
        Some(i) => {
            proof { lemma_first_named_is(parent.children@, name@, i as int); }
            match &parent.children[i] {
                DirectoryEntry::File(f) => Ok(f.size),
                _ => Err(FSError::BadFileType),
            }
        },
        None => {
            proof { lemma_first_named_none(parent.children@, name@); }
            Err(FSError::FileNotFound)
        },
    }
}

/// The names of `children`, in order.
pub fn list_names(children: &Vec<DirectoryEntry>) -> (r: Vec<String>)
    ensures
        r@.len() == children@.len(),
        forall|i: int| 0 <= i < r@.len() ==> #[trigger] r@[i]@ == entry_name(children@[i]),
{
    let mut names: Vec<String> = Vec::new();
    let mut i: usize = 0;
    while i < children.len()
        invariant
            i <= children@.len(),
            names@.len() == i,
            forall|k: int| 0 <= k < i ==> #[trigger] names@[k]@ == entry_name(children@[k]),
        decreases children@.len() - i,
    {
        names.push(children[i].name());
        i = i + 1;
    }
    names
}

/// The first child with the name is the one `first_named` gives.
pub(crate) proof fn lemma_first_named_is(children: Seq<DirectoryEntry>, name: Seq<char>, i: int)
    requires
        0 <= i < children.len(),
        entry_name(children[i]) == name,
        forall|j: int| 0 <= j < i ==> entry_name(children[j]) != name,
    ensures
        first_named(children, name) == Some(i),
{
    let k = choose|k: int| 0 <= k < children.len() && entry_name(children[k]) == name
        && forall|j: int| 0 <= j < k ==> entry_name(children[j]) != name;
    if k < i {
        assert(entry_name(children[k]) != name);
    }
    if k > i {
        assert(entry_name(children[i]) != name);
    }
}

/// A name that some child has is the name of a first such child.
proof fn lemma_min_named(children: Seq<DirectoryEntry>, name: Seq<char>, k: int)
    requires
        0 <= k < children.len(),
        entry_name(children[k]) == name,
    ensures
        exists|m: int| 0 <= m <= k && entry_name(children[m]) == name
            && forall|j: int| 0 <= j < m ==> entry_name(children[j]) != name,
    decreases k,
{
    if exists|j: int| 0 <= j < k && entry_name(children[j]) == name {
        let j = choose|j: int| 0 <= j < k && entry_name(children[j]) == name;
        lemma_min_named(children, name, j);
    } else {
        assert(forall|j: int| 0 <= j < k ==> entry_name(children[j]) != name);
    }
}

/// When some child has the name, `first_named` gives the first one.
pub(crate) proof fn lemma_first_named_first(children: Seq<DirectoryEntry>, name: Seq<char>)
    requires
        exists|i: int| 0 <= i < children.len() && entry_name(children[i]) == name,
    ensures
        first_named(children, name) matches Some(i) && 0 <= i < children.len() && entry_name(children[i]) == name
            && forall|j: int| 0 <= j < i ==> entry_name(children[j]) != name,
{
    let k = choose|i: int| 0 <= i < children.len() && entry_name(children[i]) == name;
    lemma_min_named(children, name, k);
}

pub(crate) proof fn lemma_first_named_none(children: Seq<DirectoryEntry>, name: Seq<char>)
    requires
        forall|j: int| 0 <= j < children.len() ==> entry_name(children[j]) != name,
    ensures
        first_named(children, name) is None,
{
}

} // verus!
