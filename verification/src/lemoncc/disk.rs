//! The sectors of a LemonFS disk image in the hash-table layout, and their byte images.

use vstd::prelude::*;
use vstd::bytes::{spec_u64_to_le_bytes, spec_u64_from_le_bytes, spec_u16_to_le_bytes, spec_u16_from_le_bytes,
    lemma_auto_spec_u64_to_from_le_bytes, lemma_auto_spec_u16_to_from_le_bytes};

verus! {

/// Size of a sector in bytes.
pub const LBA_SIZE: u64 = 512;

/// `b"LEMONFS\0"` read as a little-endian `u64`.
pub const LEMONFS_MAGIC: u64 = 0x0053_464E_4F4D_454C;

/// Length of a name field.
pub const FILENAME_LEN: usize = 40;

/// Hash entries per sector (74 bytes each).
pub const HASHES_PER_BLOCK: u64 = 6;

/// Size of a hash entry.
pub const ENTRY_SIZE: usize = 74;

/// Link entries per sector (16 bytes each).
pub const LINKS_PER_BLOCK: usize = 32;

/// Hash pointers per directory sector (9 bytes each).
pub const HASHPTRS_PER_BLOCK: usize = 56;

/// `t` written over `s` from `off`.
pub open spec fn splice(s: Seq<u8>, off: int, t: Seq<u8>) -> Seq<u8> {
    s.subrange(0, off) + t + s.subrange(off + t.len(), s.len() as int)
}

/// The `u64` stored little-endian at `off` of `b`.
pub open spec fn u64_at(b: Seq<u8>, off: int) -> u64 {
    spec_u64_from_le_bytes(b.subrange(off, off + 8))
}

/// The little-endian bytes of `x`.
pub open spec fn le64(x: u64) -> Seq<u8> {
    spec_u64_to_le_bytes(x)
}

/// The little-endian bytes of `x`.
pub open spec fn le16(x: u16) -> Seq<u8> {
    spec_u16_to_le_bytes(x)
}

/// The superblock of the image (sector 0).
#[derive(Clone, Copy)]
pub struct SuperBlock {
    pub magic: u64,
    pub version: u16,
    pub total_blocks: u64,
    pub hashmap_size: u64,
    pub bitmap_size: u64,
    pub dirty: u8,
    pub padding: [u8; 477],
}

/// `a / b` rounded up.
pub open spec fn ceil_div(a: int, b: int) -> int {
    (a + b - 1) / b
}

impl SuperBlock {
    /// The sector image of the superblock.
    pub open spec fn image(&self) -> Seq<u8> {
        le64(self.magic) + le16(self.version) + le64(self.total_blocks) + le64(self.hashmap_size)
            + le64(self.bitmap_size) + seq![self.dirty] + self.padding@
    }

    /// The first sector of the bitmap, right after the hash table.
    pub open spec fn spec_bitmap_start(&self) -> int {
        1 + ceil_div(self.hashmap_size as int, HASHES_PER_BLOCK as int)
    }

    /// The first data sector, right after the bitmap.
    pub open spec fn spec_data_start(&self) -> int {
        self.spec_bitmap_start() + self.bitmap_size
    }

    /// The first sector of the bitmap.
    pub fn bitmap_start(&self) -> (r: u64)
        ensures
            r == self.spec_bitmap_start(),
    {
        let q = self.hashmap_size / HASHES_PER_BLOCK;
        let m = self.hashmap_size % HASHES_PER_BLOCK;
        proof {
            vstd::arithmetic::div_mod::lemma_fundamental_div_mod(self.hashmap_size as int, 6);
            vstd::arithmetic::div_mod::lemma_fundamental_div_mod_converse(self.hashmap_size + 5, 6,
                q + if m != 0 { 1int } else { 0int }, if m != 0 { m - 1 } else { 5 });
        }
        1 + q + if m != 0 { 1 } else { 0 }
    }

    /// The first data sector.
    pub fn data_start(&self) -> (r: u64)
        requires
            self.spec_data_start() <= u64::MAX,
        ensures
            r == self.spec_data_start(),
    {
        self.bitmap_start() + self.bitmap_size
    }

    /// The sector image of the superblock.
    pub fn to_sector(&self) -> (r: [u8; 512])
        ensures
            r@ == self.image(),
    {
        proof {
            lemma_auto_spec_u64_to_from_le_bytes();
            lemma_auto_spec_u16_to_from_le_bytes();
        }
        let mut b = [0u8; 512];
        put_u64(&mut b, 0, self.magic);
        put_bytes(&mut b, 8, &vstd::bytes::u16_to_le_bytes(self.version));
        put_u64(&mut b, 10, self.total_blocks);
        put_u64(&mut b, 18, self.hashmap_size);
        put_u64(&mut b, 26, self.bitmap_size);
        b[34] = self.dirty;
        put_bytes(&mut b, 35, &self.padding);
        assert(b@ =~= self.image());
        b
    }

    /// The superblock stored in a sector.
    pub fn from_sector(b: &[u8; 512]) -> (r: Self)
        ensures
            r.image() == b@,
    {
        proof {
            lemma_auto_spec_u64_to_from_le_bytes();
            lemma_auto_spec_u16_to_from_le_bytes();
        }
        let mut padding = [0u8; 477];
        crate::fs::lemonfs::disk::copy_into(&mut padding, b, 35);
        let version = vstd::bytes::u16_from_le_bytes(vstd::slice::slice_subrange(b, 8, 10));
        let r = SuperBlock {
            magic: get_u64(b, 0),
            version,
            total_blocks: get_u64(b, 10),
            hashmap_size: get_u64(b, 18),
            bitmap_size: get_u64(b, 26),
            dirty: b[34],
            padding,
        };
        assert(le64(r.magic) == b@.subrange(0, 8));
        assert(le16(r.version) == b@.subrange(8, 10));
        assert(le64(r.total_blocks) == b@.subrange(10, 18));
        assert(le64(r.hashmap_size) == b@.subrange(18, 26));
        assert(le64(r.bitmap_size) == b@.subrange(26, 34));
        assert(r.image() =~= b@);
        r
    }
}

/// An entry of the hash table: raw status (0 unused, 1 used, 0xFF tombstone) and type (0 file,
/// 1 directory) bytes, the name, the first data sector, the size in the first extent and the
/// link to further extents.
#[derive(Clone, Copy)]
pub struct HashEntry {
    pub status: u8,
    pub type_: u8,
    pub name: [u8; FILENAME_LEN],
    pub start_block: u64,
    pub file_size: u64,
    pub link_ptr: u64,
    pub link_size: u64,
}

impl HashEntry {
    /// The 74-byte image of the entry.
    pub open spec fn image(&self) -> Seq<u8> {
        seq![self.status, self.type_] + self.name@ + le64(self.start_block) + le64(self.file_size)
            + le64(self.link_ptr) + le64(self.link_size)
    }
}

/// A pointer to a hash entry: its sector and its index in the sector.
#[derive(Clone, Copy, PartialEq, Eq, Structural)]
pub struct HashPointer {
    pub lba: u64,
    pub offset: u8,
}

impl HashPointer {
    /// The 9-byte image of the pointer.
    pub open spec fn image(&self) -> Seq<u8> {
        le64(self.lba) + seq![self.offset]
    }
}

/// A link to a run of data (`size != 0`) or to a link block (`size == 0`); `ptr == 0` is none.
#[derive(Clone, Copy, PartialEq, Eq, Structural)]
pub struct LinkEntry {
    pub ptr: u64,
    pub size: u64,
}

impl LinkEntry {
    /// The 16-byte image of the link.
    pub open spec fn image(&self) -> Seq<u8> {
        le64(self.ptr) + le64(self.size)
    }

    /// A link is valid when it points somewhere.
    pub fn is_valid(&self) -> (r: bool)
        ensures
            r == (self.ptr != 0),
    {
        self.ptr != 0
    }

    /// A link is direct when it holds data.
    pub fn is_direct(&self) -> (r: bool)
        ensures
            r == (self.size != 0),
    {
        self.size != 0
    }
}

/// The link stored at slot `i` of a link sector.
pub open spec fn link_at(b: Seq<u8>, i: int) -> LinkEntry {
    LinkEntry { ptr: u64_at(b, i * 16), size: u64_at(b, i * 16 + 8) }
}

/// The 32 links of a link sector.
pub open spec fn links_of(b: Seq<u8>) -> Seq<LinkEntry> {
    Seq::new(32, |i: int| link_at(b, i))
}

/// The hash pointer stored at slot `i` of a directory sector.
pub open spec fn ptr_at(b: Seq<u8>, i: int) -> HashPointer {
    HashPointer { lba: u64_at(b, i * 9), offset: b[i * 9 + 8] }
}

/// The 56 hash pointers of a directory sector.
pub open spec fn ptrs_of(b: Seq<u8>) -> Seq<HashPointer> {
    Seq::new(56, |i: int| ptr_at(b, i))
}

/// The status byte of an entry image.
pub open spec fn entry_status(e: Seq<u8>) -> u8 {
    e[0]
}

/// The type byte of an entry image.
pub open spec fn entry_type(e: Seq<u8>) -> u8 {
    e[1]
}

/// The link of an entry image.
pub open spec fn entry_link(e: Seq<u8>) -> LinkEntry {
    LinkEntry { ptr: u64_at(e, 58), size: u64_at(e, 66) }
}

/// The fields of an entry are those its image holds.
pub proof fn lemma_entry_fields(e: HashEntry)
    ensures
        e.image().len() == 74,
        entry_status(e.image()) == e.status,
        entry_type(e.image()) == e.type_,
        e.image().subrange(2, 42) == e.name@,
        u64_at(e.image(), 42) == e.start_block,
        u64_at(e.image(), 50) == e.file_size,
        entry_link(e.image()) == (LinkEntry { ptr: e.link_ptr, size: e.link_size }),
{
    lemma_auto_spec_u64_to_from_le_bytes();
    let im = e.image();
    assert(im.subrange(2, 42) =~= e.name@);
    assert(im.subrange(42, 50) =~= le64(e.start_block));
    assert(im.subrange(50, 58) =~= le64(e.file_size));
    assert(im.subrange(58, 66) =~= le64(e.link_ptr));
    assert(im.subrange(66, 74) =~= le64(e.link_size));
}

/// A hash entry read from the table is the entry that was written there: two entries with
/// the same image are the same entry.
pub proof fn lemma_entry_reads_back(a: HashEntry, b: HashEntry)
    requires
        b.image() == a.image(),
    ensures
        b == a,
{
    lemma_entry_fields(a);
    lemma_entry_fields(b);
    assert(a.name@ == b.name@);
    assert(a.name == b.name);
}

/// The value of `b` padded with zeros to a sector.
pub open spec fn zero_sector() -> Seq<u8> {
    Seq::new(512, |i: int| 0u8)
}

/// Writes the little-endian bytes of `x` at `off`.
pub fn put_u64(b: &mut [u8; 512], off: usize, x: u64)
    requires
        off + 8 <= 512,
    ensures
        final(b)@ == splice(old(b)@, off as int, le64(x)),
{
    let bytes = vstd::bytes::u64_to_le_bytes(x);
    put_bytes(b, off, bytes.as_slice());
}

/// Writes `t` at `off`.
pub fn put_bytes(b: &mut [u8; 512], off: usize, t: &[u8])
    requires
        off + t@.len() <= 512,
    ensures
        final(b)@ == splice(old(b)@, off as int, t@),
{
    let n = t.len();
    let mut i: usize = 0;
    while i < n
        invariant
            n == t@.len(),
            off + n <= 512,
            i <= n,
            b@.len() == 512,
            forall|j: int| 0 <= j < off ==> #[trigger] b@[j] == old(b)@[j],
            forall|j: int| off <= j < off + i ==> #[trigger] b@[j] == t@[j - off],
            forall|j: int| off + i <= j < 512 ==> #[trigger] b@[j] == old(b)@[j],
        decreases n - i,
    {
        b[off + i] = t[i];
        i = i + 1;
    }
    assert(b@ =~= splice(old(b)@, off as int, t@));
}

/// Reads the little-endian `u64` at `off`.
pub fn get_u64(b: &[u8; 512], off: usize) -> (r: u64)
    requires
        off + 8 <= 512,
    ensures
        r == u64_at(b@, off as int),
{
    vstd::bytes::u64_from_le_bytes(vstd::slice::slice_subrange(b, off, off + 8))
}

/// Writes the image of entry `e` at slot `idx` of a hash-table sector.
pub fn put_entry(b: &mut [u8; 512], idx: usize, e: &HashEntry)
    requires
        idx < 6,
    ensures
        final(b)@ == splice(old(b)@, idx * 74, e.image()),
{
    proof { lemma_auto_spec_u64_to_from_le_bytes(); }
    let off = idx * ENTRY_SIZE;
    let ghost b0 = b@;
    b[off] = e.status;
    b[off + 1] = e.type_;
    put_bytes(b, off + 2, &e.name);
    put_u64(b, off + 42, e.start_block);
    put_u64(b, off + 50, e.file_size);
    put_u64(b, off + 58, e.link_ptr);
    put_u64(b, off + 66, e.link_size);
    assert(b@ =~= splice(b0, off as int, e.image()));
}

/// The entry at slot `idx` of a hash-table sector.
pub fn get_entry(b: &[u8; 512], idx: usize) -> (r: HashEntry)
    requires
        idx < 6,
    ensures
        r.image() == b@.subrange(idx * 74, idx * 74 + 74),
{
    proof { lemma_auto_spec_u64_to_from_le_bytes(); }
    let off = idx * ENTRY_SIZE;
    let mut name = [0u8; FILENAME_LEN];
    crate::fs::lemonfs::disk::copy_into(&mut name, b, off + 2);
    let r = HashEntry {
        status: b[off],
        type_: b[off + 1],
        name,
        start_block: get_u64(b, off + 42),
        file_size: get_u64(b, off + 50),
        link_ptr: get_u64(b, off + 58),
        link_size: get_u64(b, off + 66),
    };
    assert(le64(r.start_block) == b@.subrange(off + 42, off + 50));
    assert(le64(r.file_size) == b@.subrange(off + 50, off + 58));
    assert(le64(r.link_ptr) == b@.subrange(off + 58, off + 66));
    assert(le64(r.link_size) == b@.subrange(off + 66, off + 74));
    assert(r.image() =~= b@.subrange(off as int, off + 74));
    r
}

/// Writes link `l` at slot `idx` of a link sector.
pub fn put_link(b: &mut [u8; 512], idx: usize, l: &LinkEntry)
    requires
        idx < 32,
    ensures
        final(b)@ == splice(old(b)@, idx * 16, l.image()),
{
    proof { lemma_auto_spec_u64_to_from_le_bytes(); }
    let ghost b0 = b@;
    put_u64(b, idx * 16, l.ptr);
    put_u64(b, idx * 16 + 8, l.size);
    assert(b@ =~= splice(b0, idx * 16, l.image()));
}

/// The link at slot `idx` of a link sector.
pub fn get_link(b: &[u8; 512], idx: usize) -> (r: LinkEntry)
    requires
        idx < 32,
    ensures
        r.image() == b@.subrange(idx * 16, idx * 16 + 16),
        r == link_at(b@, idx as int),
{
    proof { lemma_auto_spec_u64_to_from_le_bytes(); }
    let r = LinkEntry { ptr: get_u64(b, idx * 16), size: get_u64(b, idx * 16 + 8) };
    assert(le64(r.ptr) == b@.subrange(idx * 16, idx * 16 + 8));
    assert(le64(r.size) == b@.subrange(idx * 16 + 8, idx * 16 + 16));
    assert(r.image() =~= b@.subrange(idx * 16, idx * 16 + 16));
    r
}

/// Writes hash pointer `p` at slot `idx` of a directory sector.
pub fn put_hash_ptr(b: &mut [u8; 512], idx: usize, p: &HashPointer)
    requires
        idx < 56,
    ensures
        final(b)@ == splice(old(b)@, idx * 9, p.image()),
{
    proof { lemma_auto_spec_u64_to_from_le_bytes(); }
    let ghost b0 = b@;
    put_u64(b, idx * 9, p.lba);
    b[idx * 9 + 8] = p.offset;
    assert(b@ =~= splice(b0, idx * 9, p.image()));
}

/// The hash pointer at slot `idx` of a directory sector.
pub fn get_hash_ptr(b: &[u8; 512], idx: usize) -> (r: HashPointer)
    requires
        idx < 56,
    ensures
        r.image() == b@.subrange(idx * 9, idx * 9 + 9),
        r == ptr_at(b@, idx as int),
{
    proof { lemma_auto_spec_u64_to_from_le_bytes(); }
    let r = HashPointer { lba: get_u64(b, idx * 9), offset: b[idx * 9 + 8] };
    assert(le64(r.lba) == b@.subrange(idx * 9, idx * 9 + 8));
    assert(r.image() =~= b@.subrange(idx * 9, idx * 9 + 9));
    r
}

} // verus!
