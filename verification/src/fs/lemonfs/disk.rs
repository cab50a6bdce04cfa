//! The on-disk data structures of LemonFS.

use vstd::prelude::*;
use vstd::bytes::{spec_u64_to_le_bytes, spec_u64_from_le_bytes, spec_u32_to_le_bytes, spec_u32_from_le_bytes,
    u64_to_le_bytes, u64_from_le_bytes, u32_to_le_bytes, u32_from_le_bytes,
    lemma_auto_spec_u64_to_from_le_bytes, lemma_auto_spec_u32_to_from_le_bytes};
use vstd::slice::slice_subrange;
use vstd::string::StringSliceAdditionalSpecFns;
use vstd::arithmetic::div_mod::lemma_fundamental_div_mod_converse;

verus! {


/// The magic at the start of a LemonFS superblock.
pub const LEMONFS_MAGIC: [u8; 8] = [0x4C, 0x45, 0x4D, 0x4F, 0x4E, 0x46, 0x53, 0x00];

/// Number of directory entries held by one directory block.
pub const ENTRIES_PER_DIRENTRY: usize = 8;

/// Length of a file name in bytes.
pub const FILENAME_LEN: usize = 36;

/// Superblock flag: the filesystem is read-only.
pub const SB_READ_ONLY: u64 = 1;
/// Superblock flag: the filesystem was not cleanly synced.
pub const SB_DIRTY: u64 = 2;
/// Superblock flag: this filesystem is the root.
pub const SB_IS_ROOT: u64 = 4;
/// Superblock flag: the filesystem needs a check.
pub const SB_NEEDS_CHECK: u64 = 8;
/// Superblock flag: the backup superblock is in sync.
pub const SB_BACKUP_SYNC: u64 = 16;

/// Directory entry flag: the entry is a directory (otherwise a file).
pub const DIR_IS_DIR: u8 = 1;
/// Directory entry flag: the entry is a symbolic link.
pub const DIR_IS_SYMLINK: u8 = 2;
/// Every directory entry flag.
pub const DIR_ALL_FLAGS: u8 = 3;

/// The flags of a superblock.
#[derive(Debug, Clone, Copy, PartialEq, Eq, Structural)]
pub struct SuperBlockFlags {
    pub bits: u64,
}

impl SuperBlockFlags {
    /// No flag set.
    pub fn empty() -> (r: Self)
        ensures r.bits == 0,
    {
        Self { bits: 0 }
    }

    /// Returns `true` if every flag of `other` is set in `self`.
    pub fn contains(&self, other: u64) -> (r: bool)
        ensures r == (self.bits & other == other),
    {
        self.bits & other == other
    }
}

/// The flags of a directory entry.
#[derive(Debug, Clone, Copy, PartialEq, Eq, Structural)]
pub struct DirEntryFlags {
    pub bits: u8,
}

impl DirEntryFlags {
    /// No flag set.
    pub fn empty() -> (r: Self)
        ensures r.bits == 0,
    {
        Self { bits: 0 }
    }

    /// The flags `bits`, if no bit outside the known flags is set.
    pub fn from_bits(bits: u8) -> (r: Option<Self>)
        ensures
            r == (if bits & !DIR_ALL_FLAGS == 0 { Some(DirEntryFlags { bits }) } else { None::<DirEntryFlags> }),
    {
        if bits & !DIR_ALL_FLAGS == 0 { Some(Self { bits }) } else { None }
    }

    /// Returns `true` if every flag of `other` is set in `self`.
    pub fn contains(&self, other: u8) -> (r: bool)
        ensures r == (self.bits & other == other),
    {
        self.bits & other == other
    }
}

/// The superblock of a LemonFS partition (one sector).
#[derive(Debug, Clone, Copy)]
pub struct SuperBlock {
    /// The LemonFS magic.
    pub magic: [u8; 8],
    pub version: u32,
    pub reserved: [u8; 4],
    pub flags: SuperBlockFlags,
    /// CRC64 checksum of the superblock, taken with this field zero.
    pub checksum: u64,
    /// Start of the bitmap.
    pub bitmap_start: u64,
    /// Start of the data.
    pub data_start: u64,
    /// End of the usable data blocks (the root directory block).
    pub data_end: u64,
    pub padding: [u8; 456],
}

/// The little-endian bytes of a `u64`.
pub open spec fn le64(x: u64) -> Seq<u8> {
    spec_u64_to_le_bytes(x)
}

impl SuperBlock {
    /// A fresh superblock for a partition of `part_block` sectors, if it holds at least 0x1000.
    pub fn new(part_block: u64) -> (r: Option<Self>)
        ensures
            part_block < 0x1000 ==> r is None,
            part_block >= 0x1000 ==> (r matches Some(sb) && {
                &&& sb.magic@ == LEMONFS_MAGIC@
                &&& sb.version == 1
                &&& sb.reserved@ == seq![0xBAu8; 4]
                &&& sb.flags.bits == 0
                &&& sb.checksum == 0
                &&& sb.bitmap_start == 1
                &&& sb.data_start == 1 + (part_block + 0xFFF) / 0x1000
                &&& sb.data_end == part_block - 2
                &&& sb.padding@ == Seq::new(456, |i: int| 0xBAu8)
            }),
    {
        if part_block < 0x1000 { return None }
        let sb = Self {
            magic: LEMONFS_MAGIC,
            version: 1,
            reserved: [0xBA; 4],
            flags: SuperBlockFlags::empty(),
            checksum: 0,
            bitmap_start: 1,
            data_start: 1 + part_block / 0x1000 + if part_block % 0x1000 != 0 { 1 } else { 0 },
            data_end: part_block - 2,
            padding: [0xBA; 456],
        };
        assert(sb.reserved@ =~= seq![0xBAu8; 4]);
        assert(sb.padding@ =~= Seq::new(456, |i: int| 0xBAu8));
        Some(sb)
    }

    /// The sector image of the superblock (packed, little endian).
    pub open spec fn image(&self) -> Seq<u8> {
        self.magic@ + spec_u32_to_le_bytes(self.version) + self.reserved@ + le64(self.flags.bits)
            + le64(self.checksum) + le64(self.bitmap_start) + le64(self.data_start)
            + le64(self.data_end) + self.padding@
    }

    /// The sector image of the superblock.
    pub fn to_bytes(&self) -> (r: Vec<u8>)
        ensures
            r@ == self.image(),
            r@.len() == 512,
    {
        proof {
            lemma_auto_spec_u64_to_from_le_bytes();
            lemma_auto_spec_u32_to_from_le_bytes();
        }
        let mut v: Vec<u8> = Vec::new();
        push_bytes(&mut v, &self.magic);
        let mut x = u32_to_le_bytes(self.version);
        v.append(&mut x);
        push_bytes(&mut v, &self.reserved);
        push_u64(&mut v, self.flags.bits);
        push_u64(&mut v, self.checksum);
        push_u64(&mut v, self.bitmap_start);
        push_u64(&mut v, self.data_start);
        push_u64(&mut v, self.data_end);
        push_bytes(&mut v, &self.padding);
        v
    }

    /// The superblock held by a sector image.
    pub fn from_bytes(bytes: &[u8]) -> (r: Self)
        requires
            bytes@.len() == 512,
        ensures
            r.image() == bytes@,
    {
        proof {
            lemma_auto_spec_u64_to_from_le_bytes();
            lemma_auto_spec_u32_to_from_le_bytes();
        }
        let mut magic = [0u8; 8];
        copy_into(&mut magic, bytes, 0);
        let version = u32_from_le_bytes(slice_subrange(bytes, 8, 12));
        let mut reserved = [0u8; 4];
        copy_into(&mut reserved, bytes, 12);
        let flags = u64_from_le_bytes(slice_subrange(bytes, 16, 24));
        let checksum = u64_from_le_bytes(slice_subrange(bytes, 24, 32));
        let bitmap_start = u64_from_le_bytes(slice_subrange(bytes, 32, 40));
        let data_start = u64_from_le_bytes(slice_subrange(bytes, 40, 48));
        let data_end = u64_from_le_bytes(slice_subrange(bytes, 48, 56));
        let mut padding = [0u8; 456];
        copy_into(&mut padding, bytes, 56);
        let r = Self { magic, version, reserved, flags: SuperBlockFlags { bits: flags }, checksum, bitmap_start, data_start, data_end, padding };
        proof {
            let b = bytes@;
            assert(b.subrange(8, 12).len() == 4);
            assert(spec_u32_to_le_bytes(version) == b.subrange(8, 12));
            assert(le64(flags) == b.subrange(16, 24));
            assert(le64(checksum) == b.subrange(24, 32));
            assert(le64(bitmap_start) == b.subrange(32, 40));
            assert(le64(data_start) == b.subrange(40, 48));
            assert(le64(data_end) == b.subrange(48, 56));
            assert(r.image() =~= b);
        }
        r
    }
}


/// The nonzero bytes of `s`, in order.
pub open spec fn nonzero_bytes(s: Seq<u8>) -> Seq<u8>
    decreases s.len(),
{
    if s.len() == 0 {
        Seq::empty()
    } else if s.last() != 0 {
        nonzero_bytes(s.drop_last()).push(s.last())
    } else {
        nonzero_bytes(s.drop_last())
    }
}

/// A file name: up to 36 bytes, padded with zeros.
#[derive(Debug, Clone, Copy, PartialEq, Eq, PartialOrd, Ord)]
pub struct Filename(pub [u8; FILENAME_LEN]);

/// The first `FILENAME_LEN` bytes of `s`, padded with zeros.
pub open spec fn name_bytes(s: Seq<u8>) -> Seq<u8> {
    Seq::new(FILENAME_LEN as nat, |i: int| if i < s.len() { s[i] } else { 0u8 })
}

/// No byte of the UTF-8 encoding of a scalar other than zero is zero.
proof fn lemma_scalar_bytes_nonzero(c: u32)
    requires
        c != 0,
        vstd::utf8::is_scalar(c),
    ensures
        forall|k: int| 0 <= k < vstd::utf8::encode_scalar(c).len() ==> #[trigger] vstd::utf8::encode_scalar(c)[k] != 0,
{
    assert(0 < c <= 0x7F ==> (c & 0x7F) as u8 != 0) by (bit_vector);
    assert(forall|x: u32| #[trigger] (0x80u8 | (x & 0x3F) as u8) != 0) by (bit_vector);
    assert(forall|x: u32| #[trigger] (0x80u8 | ((x >> 6) & 0x3F) as u8) != 0) by (bit_vector);
    assert(forall|x: u32| #[trigger] (0x80u8 | ((x >> 12) & 0x3F) as u8) != 0) by (bit_vector);
    assert(forall|x: u32| #[trigger] (0xC0u8 | ((x >> 6) & 0x1F) as u8) != 0) by (bit_vector);
    assert(forall|x: u32| #[trigger] (0xE0u8 | ((x >> 12) & 0x0F) as u8) != 0) by (bit_vector);
    assert(forall|x: u32| #[trigger] (0xF0u8 | ((x >> 18) & 0x7) as u8) != 0) by (bit_vector);
}

/// No byte of the UTF-8 encoding of text without the character U+0000 is zero.
pub proof fn lemma_encoding_nonzero(s: Seq<char>)
    requires
        forall|i: int| 0 <= i < s.len() ==> #[trigger] s[i] != '\0',
    ensures
        forall|k: int| 0 <= k < vstd::utf8::encode_utf8(s).len() ==> #[trigger] vstd::utf8::encode_utf8(s)[k] != 0,
    decreases s.len(),
{
    if s.len() > 0 {
        let c = s[0] as u32;
        vstd::utf8::char_is_scalar(s[0]);
        vstd::utf8::char_u32_cast(s[0], c);
        if c == 0 {
            vstd::utf8::char_u32_cast('\0', 0u32);
            assert(s[0] == (0u32 as char));
            assert('\0' == (0u32 as char));
        }
        assert(c != 0);
        lemma_scalar_bytes_nonzero(c);
        assert forall|i: int| 0 <= i < s.drop_first().len() implies #[trigger] s.drop_first()[i] != '\0' by {
            assert(s.drop_first()[i] == s[i + 1]);
        }
        lemma_encoding_nonzero(s.drop_first());
        let a = vstd::utf8::encode_scalar(c);
        let b = vstd::utf8::encode_utf8(s.drop_first());
        assert forall|k: int| 0 <= k < (a + b).len() implies #[trigger] (a + b)[k] != 0 by {
            if k >= a.len() {
                assert((a + b)[k] == b[k - a.len()]);
            }
        }
    }
}

/// The nonzero bytes of the first `m` bytes of a padded name whose bytes `b` are all nonzero
/// are the first `m` bytes of `b`.
proof fn lemma_nonzero_prefix(b: Seq<u8>, m: int)
    requires
        b.len() <= FILENAME_LEN,
        forall|k: int| 0 <= k < b.len() ==> #[trigger] b[k] != 0,
        0 <= m <= FILENAME_LEN,
    ensures
        nonzero_bytes(name_bytes(b).subrange(0, m)) == b.subrange(0, if m < b.len() { m } else { b.len() as int }),
    decreases m,
{
    let t = name_bytes(b).subrange(0, m);
    if m > 0 {
        lemma_nonzero_prefix(b, m - 1);
        assert(t.drop_last() =~= name_bytes(b).subrange(0, m - 1));
        if m <= b.len() {
            assert(b.subrange(0, m - 1).push(b[m - 1]) =~= b.subrange(0, m));
        }
    } else {
        assert(t =~= Seq::<u8>::empty());
        assert(b.subrange(0, 0) =~= Seq::<u8>::empty());
    }
}

/// A name written from text of at most 36 bytes with no U+0000 reads back as that text: its
/// nonzero bytes are the text's encoding, which is valid UTF-8 and decodes to the text.
pub proof fn lemma_name_round_trip(s: Seq<char>)
    requires
        vstd::utf8::encode_utf8(s).len() <= FILENAME_LEN,
        forall|i: int| 0 <= i < s.len() ==> #[trigger] s[i] != '\0',
    ensures
        nonzero_bytes(name_bytes(vstd::utf8::encode_utf8(s))) == vstd::utf8::encode_utf8(s),
        vstd::utf8::valid_utf8(nonzero_bytes(name_bytes(vstd::utf8::encode_utf8(s)))),
        vstd::utf8::decode_utf8(nonzero_bytes(name_bytes(vstd::utf8::encode_utf8(s)))) == s,
{
    let b = vstd::utf8::encode_utf8(s);
    lemma_encoding_nonzero(s);
    lemma_nonzero_prefix(b, FILENAME_LEN as int);
    assert(name_bytes(b).subrange(0, FILENAME_LEN as int) =~= name_bytes(b));
    assert(b.subrange(0, b.len() as int) =~= b);
    vstd::utf8::encode_utf8_valid_utf8(s);
    vstd::utf8::encode_utf8_decode_utf8(s);
}

impl Filename {
    /// The name made of the first 36 bytes of `s` (a longer name is cut short).
    pub fn from_str(s: &str) -> (r: Self)
        ensures
            r.0@ == name_bytes(s.spec_bytes()),
    {
        let bytes = s.as_bytes();
        let mut buf = [0u8; FILENAME_LEN];
        let n = if bytes.len() < FILENAME_LEN { bytes.len() } else { FILENAME_LEN };
        let mut i: usize = 0;
        while i < n
            invariant
                i <= n,
                n <= FILENAME_LEN,
                n <= bytes@.len(),
                n == FILENAME_LEN || n == bytes@.len(),
                buf@.len() == FILENAME_LEN,
                forall|j: int| 0 <= j < i ==> buf@[j] == bytes@[j],
                forall|j: int| i <= j < FILENAME_LEN ==> buf@[j] == 0u8,
            decreases n - i,
        {
            buf[i] = bytes[i];
            i = i + 1;
        }
        assert(buf@ =~= name_bytes(s.spec_bytes()));
        Self(buf)
    }

    /// The nonzero bytes of the name.
    pub open spec fn stored(&self) -> Seq<u8> {
        nonzero_bytes(self.0@)
    }

    /// The name as text: its nonzero bytes, decoded with invalid sequences replaced.
    pub fn to_str(self) -> (r: String)
        ensures
            r@ == crate::text::lossy_utf8(self.stored()),
            vstd::utf8::valid_utf8(self.stored()) ==> r@ == vstd::utf8::decode_utf8(self.stored()),
    {
        let mut v: Vec<u8> = Vec::new();
        let mut i: usize = 0;
        while i < FILENAME_LEN
            invariant
                i <= FILENAME_LEN,
                v@ == nonzero_bytes(self.0@.subrange(0, i as int)),
            decreases FILENAME_LEN - i,
        {
            proof {
                let s = self.0@.subrange(0, i + 1);
                assert(s.drop_last() =~= self.0@.subrange(0, i as int));
            }
            if self.0[i] != 0 { v.push(self.0[i]); }
            i = i + 1;
        }
        assert(self.0@.subrange(0, FILENAME_LEN as int) =~= self.0@);
        crate::text::string_from_utf8_lossy(v.as_slice())
    }

    /// Returns `true` if every byte of the name is zero.
    pub fn is_empty(&self) -> (r: bool)
        ensures
            r == (forall|i: int| 0 <= i < FILENAME_LEN ==> self.0@[i] == 0u8),
    {
        let mut i: usize = 0;
        while i < FILENAME_LEN
            invariant
                i <= FILENAME_LEN,
                forall|j: int| 0 <= j < i ==> self.0@[j] == 0u8,
            decreases FILENAME_LEN - i,
        {
            if self.0[i] != 0 { return false }
            i = i + 1;
        }
        true
    }
}

/// A pointer to a run of sectors. A direct pointer (`size != 0`) holds `size` bytes of data at
/// `start`; an indirect one (`size == 0`) points to a `LinkBlock` at `start`. `start == 0` ends a chain.
#[derive(Debug, Clone, Copy)]
pub struct LinkPointer {
    pub start: u64,
    pub size: u64,
}

impl LinkPointer {
    /// The 16-byte image of the pointer.
    pub open spec fn image(&self) -> Seq<u8> {
        le64(self.start) + le64(self.size)
    }
}

/// An entry of a directory block.
#[derive(Debug, Clone, Copy)]
pub struct DirEntry {
    pub name: Filename,
    pub flags: DirEntryFlags,
    pub link: LinkPointer,
}

impl DirEntry {
    /// An entry with the given name, flags and link.
    pub fn new(name: &Filename, flags: DirEntryFlags, link: LinkPointer) -> (r: Self)
        ensures
            r == (DirEntry { name: *name, flags, link }),
    {
        Self { name: *name, flags, link }
    }

    /// The empty entry: zero name, no flags, null link.
    pub fn zero() -> (r: Self)
        ensures
            r.name.0@ == Seq::new(FILENAME_LEN as nat, |i: int| 0u8),
            r.flags.bits == 0,
            r.link == (LinkPointer { start: 0, size: 0 }),
    {
        let name = Filename([0u8; FILENAME_LEN]);
        assert(name.0@ =~= Seq::new(FILENAME_LEN as nat, |i: int| 0u8));
        Self { name, flags: DirEntryFlags::empty(), link: LinkPointer { start: 0, size: 0 } }
    }

    /// The 53-byte image of the entry.
    pub open spec fn image(&self) -> Seq<u8> {
        self.name.0@ + seq![self.flags.bits] + self.link.image()
    }
}

/// Size in bytes of one directory entry on disk.
pub const DIR_ENTRY_SIZE: usize = 53;

/// A directory block: its directory's first block, 8 entries and the next block of the chain.
pub struct DirBlock {
    /// Parent's first dirblock.
    pub parent: u64,
    pub entries: [DirEntry; ENTRIES_PER_DIRENTRY],
    pub next: LinkPointer,
    pub padding: [u8; 64],
}

impl DirBlock {
    /// A directory block with the given parent, entries and next pointer.
    pub fn new(parent: u64, entries: &[DirEntry; ENTRIES_PER_DIRENTRY], next: LinkPointer) -> (r: Self)
        ensures
            r.parent == parent,
            r.entries@ == entries@,
            r.next == next,
            r.padding@ == Seq::new(64, |i: int| 0xBAu8),
    {
        let r = Self { parent, entries: *entries, next, padding: [0xBA; 64] };
        assert(r.padding@ =~= Seq::new(64, |i: int| 0xBAu8));
        r
    }
}

/// A sector of link pointers: 31 data pointers and, last, the next `LinkBlock` of the chain.
pub struct LinkBlock(pub [LinkPointer; 32]);


/// Position `k` lies in the `q`-th stretch of `d` bytes.
pub proof fn lemma_in_stretch(k: int, d: int, q: int)
    requires
        d > 0,
        q * d <= k < q * d + d,
    ensures
        k / d == q,
        k % d == k - q * d,
{
    lemma_fundamental_div_mod_converse(k, d, q, k - q * d);
}

/// The link pointer held by the 16 bytes of `bytes` at `offset`.
pub fn read_link_pointer(bytes: &[u8], offset: usize) -> (r: LinkPointer)
    requires
        offset + 16 <= bytes@.len(),
    ensures
        r.image() == bytes@.subrange(offset as int, offset + 16),
{
    proof { lemma_auto_spec_u64_to_from_le_bytes(); }
    let _n = bytes.len();
    let start = u64_from_le_bytes(slice_subrange(bytes, offset, offset + 8));
    let size = u64_from_le_bytes(slice_subrange(bytes, offset + 8, offset + 16));
    let r = LinkPointer { start, size };
    assert(le64(start) == bytes@.subrange(offset as int, offset + 8));
    assert(le64(size) == bytes@.subrange(offset + 8, offset + 16));
    assert(r.image() =~= bytes@.subrange(offset as int, offset + 16));
    r
}

/// Appends the image of a link pointer.
pub fn push_link_pointer(v: &mut Vec<u8>, p: &LinkPointer)
    ensures
        final(v)@ == old(v)@ + p.image(),
        p.image().len() == 16,
{
    proof { lemma_auto_spec_u64_to_from_le_bytes(); }
    push_u64(v, p.start);
    push_u64(v, p.size);
    assert(v@ =~= old(v)@ + p.image());
}

impl LinkBlock {
    /// The sector image: the 32 pointers, 16 bytes each.
    pub open spec fn image(&self) -> Seq<u8> {
        Seq::new(512, |k: int| self.0@[k / 16].image()[k % 16])
    }

    /// The sector image of the block.
    pub fn to_bytes(&self) -> (r: Vec<u8>)
        ensures
            r@ == self.image(),
    {
        let mut v: Vec<u8> = Vec::new();
        let mut i: usize = 0;
        while i < 32
            invariant
                i <= 32,
                v@ == Seq::new((i * 16) as nat, |k: int| self.0@[k / 16].image()[k % 16]),
            decreases 32 - i,
        {
            let ghost before = v@;
            push_link_pointer(&mut v, &self.0[i]);
            proof {
                assert forall|k: int| 0 <= k < (i + 1) * 16 implies #[trigger] v@[k] == self.0@[k / 16].image()[k % 16] by {
                    if k < i * 16 {
                        assert(v@[k] == before[k]);
                    } else {
                        lemma_in_stretch(k, 16, i as int);
                    }
                }
            }
            i = i + 1;
            assert(v@ =~= Seq::new((i * 16) as nat, |k: int| self.0@[k / 16].image()[k % 16]));
        }
        v
    }

    /// The block held by a sector image.
    pub fn from_bytes(bytes: &[u8]) -> (r: Self)
        requires
            bytes@.len() == 512,
        ensures
            r.image() == bytes@,
    {
        let mut arr = [LinkPointer { start: 0, size: 0 }; 32];
        let mut i: usize = 0;
        while i < 32
            invariant
                i <= 32,
                bytes@.len() == 512,
                forall|j: int| 0 <= j < i ==> #[trigger] arr@[j].image() == bytes@.subrange(j * 16, j * 16 + 16),
            decreases 32 - i,
        {
            arr[i] = read_link_pointer(bytes, i * 16);
            i = i + 1;
        }
        let r = LinkBlock(arr);
        assert forall|k: int| 0 <= k < 512 implies #[trigger] r.image()[k] == bytes@[k] by {
            let q = k / 16;
            lemma_in_stretch(k, 16, q);
            assert(arr@[q].image() == bytes@.subrange(q * 16, q * 16 + 16));
        }
        assert(r.image() =~= bytes@);
        r
    }
}

impl DirEntry {
    /// The entry held by the 53 bytes of `bytes` at `offset`.
    pub fn read(bytes: &[u8], offset: usize) -> (r: Self)
        requires
            offset + 53 <= bytes@.len(),
        ensures
            r.image() == bytes@.subrange(offset as int, offset + 53),
    {
        let _n = bytes.len();
        let mut name = [0u8; FILENAME_LEN];
        copy_into(&mut name, bytes, offset);
        let flags = bytes[offset + 36];
        let link = read_link_pointer(bytes, offset + 37);
        let r = DirEntry { name: Filename(name), flags: DirEntryFlags { bits: flags }, link };
        assert(r.image() =~= bytes@.subrange(offset as int, offset + 53));
        r
    }

    /// Appends the image of the entry.
    pub fn push_image(&self, v: &mut Vec<u8>)
        ensures
            final(v)@ == old(v)@ + self.image(),
            self.image().len() == 53,
    {
        push_bytes(v, &self.name.0);
        v.push(self.flags.bits);
        push_link_pointer(v, &self.link);
        assert(v@ =~= old(v)@ + self.image());
    }
}

impl DirBlock {
    /// The sector image: parent, the 8 entries (53 bytes each), next pointer, padding.
    pub open spec fn image(&self) -> Seq<u8> {
        Seq::new(512, |k: int|
            if k < 8 {
                le64(self.parent)[k]
            } else if k < 432 {
                self.entries@[(k - 8) / 53].image()[(k - 8) % 53]
            } else if k < 448 {
                self.next.image()[k - 432]
            } else {
                self.padding@[k - 448]
            })
    }

    /// The sector image of the block.
    pub fn to_bytes(&self) -> (r: Vec<u8>)
        ensures
            r@ == self.image(),
    {
        proof { lemma_auto_spec_u64_to_from_le_bytes(); }
        let mut v: Vec<u8> = Vec::new();
        push_u64(&mut v, self.parent);
        let mut i: usize = 0;
        while i < ENTRIES_PER_DIRENTRY
            invariant
                i <= ENTRIES_PER_DIRENTRY,
                v@ == Seq::new((8 + i * 53) as nat, |k: int| self.image()[k]),
            decreases ENTRIES_PER_DIRENTRY - i,
        {
            let ghost before = v@;
            self.entries[i].push_image(&mut v);
            proof {
                assert forall|k: int| 0 <= k < 8 + (i + 1) * 53 implies #[trigger] v@[k] == self.image()[k] by {
                    if k < 8 + i * 53 {
                        assert(v@[k] == before[k]);
                    } else {
                        lemma_in_stretch(k - 8, 53, i as int);
                    }
                }
            }
            i = i + 1;
            assert(v@ =~= Seq::new((8 + i * 53) as nat, |k: int| self.image()[k]));
        }
        let ghost before = v@;
        push_link_pointer(&mut v, &self.next);
        push_bytes(&mut v, &self.padding);
        assert(v@ =~= self.image());
        v
    }

    /// The block held by a sector image.
    pub fn from_bytes(bytes: &[u8]) -> (r: Self)
        requires
            bytes@.len() == 512,
        ensures
            r.image() == bytes@,
    {
        proof { lemma_auto_spec_u64_to_from_le_bytes(); }
        let parent = u64_from_le_bytes(slice_subrange(bytes, 0, 8));
        let mut entries = [DirEntry::zero(); ENTRIES_PER_DIRENTRY];
        let mut i: usize = 0;
        while i < ENTRIES_PER_DIRENTRY
            invariant
                i <= ENTRIES_PER_DIRENTRY,
                bytes@.len() == 512,
                forall|j: int| 0 <= j < i ==> #[trigger] entries@[j].image() == bytes@.subrange(8 + j * 53, 8 + j * 53 + 53),
            decreases ENTRIES_PER_DIRENTRY - i,
        {
            entries[i] = DirEntry::read(bytes, 8 + i * 53);
            i = i + 1;
        }
        let next = read_link_pointer(bytes, 432);
        let mut padding = [0u8; 64];
        copy_into(&mut padding, bytes, 448);
        let r = DirBlock { parent, entries, next, padding };
        assert(le64(parent) == bytes@.subrange(0, 8));
        assert forall|k: int| 0 <= k < 512 implies #[trigger] r.image()[k] == bytes@[k] by {
            if 8 <= k < 432 {
                let q = (k - 8) / 53;
                lemma_in_stretch(k - 8, 53, q);
                assert(entries@[q].image() == bytes@.subrange(8 + q * 53, 8 + q * 53 + 53));
            }
        }
        assert(r.image() =~= bytes@);
        r
    }
}

/// Appends the little-endian bytes of `x`.
pub fn push_u64(v: &mut Vec<u8>, x: u64)
    ensures
        final(v)@ == old(v)@ + le64(x),
{
    let mut b = u64_to_le_bytes(x);
    v.append(&mut b);
}

/// Appends the bytes of `a`.
pub fn push_bytes<const N: usize>(v: &mut Vec<u8>, a: &[u8; N])
    ensures
        final(v)@ == old(v)@ + a@,
{
    let ghost start = v@;
    let mut i: usize = 0;
    while i < N
        invariant
            i <= N,
            a@.len() == N,
            v@ == start + a@.subrange(0, i as int),
        decreases N - i,
    {
        v.push(a[i]);
        i = i + 1;
        assert(v@ =~= start + a@.subrange(0, i as int));
    }
    assert(a@.subrange(0, N as int) =~= a@);
}

/// Fills `a` with the bytes of `src` that start at `offset`.
pub fn copy_into<const N: usize>(a: &mut [u8; N], src: &[u8], offset: usize)
    requires
        offset + N <= src@.len(),
    ensures
        final(a)@ == src@.subrange(offset as int, offset + N),
{
    let n = src.len();
    let mut i: usize = 0;
    while i < N
        invariant
            i <= N,
            offset + N <= src@.len(),
            n == src@.len(),
            a@.len() == N,
            forall|j: int| 0 <= j < i ==> a@[j] == src@[offset + j],
        decreases N - i,
    {
        a[i] = src[offset + i];
        i = i + 1;
    }
    assert(a@ =~= src@.subrange(offset as int, offset + N));
}

/// Number of allocation bits held by one bitmap block (one 512-byte sector).
pub const BITS_PER_BLOCK: usize = 4096;

/// Bit `j` (0..8) of byte `b`, least significant first.
pub open spec fn byte_bit(b: u8, j: int) -> bool {
    ((b >> (j as u8)) & 1u8) == 1u8
}

/// One sector of the allocation bitmap; bit `i` lives in byte `i / 8` at position `i % 8`.
#[derive(Debug, Clone, Copy)]
pub struct BitmapBlock(pub [u8; 512]);

impl BitmapBlock {
    /// Bit `i` of the block.
    pub open spec fn bit(&self, i: int) -> bool {
        byte_bit(self.0@[i / 8], i % 8)
    }

    /// The 4096 bits of the block.
    pub open spec fn bits(&self) -> Seq<bool> {
        Seq::new(BITS_PER_BLOCK as nat, |i: int| self.bit(i))
    }

    /// Returns `true` if bit `bit` is set.
    pub fn get(&self, bit: usize) -> (r: bool)
        requires
            bit < BITS_PER_BLOCK,
        ensures
            r == self.bits()[bit as int],
    {
        let shift: u8 = (bit % 8) as u8;
        ((self.0[bit / 8] >> shift) & 1u8) == 1u8
    }

    /// Sets bit `bit`.
    pub fn set(&mut self, bit: usize)
        requires
            bit < BITS_PER_BLOCK,
        ensures
            final(self).bits() == old(self).bits().update(bit as int, true),
    {
        let shift: u8 = (bit % 8) as u8;
        let idx = bit / 8;
        let old_byte = self.0[idx];
        let new_byte = old_byte | (1u8 << shift);
        self.0[idx] = new_byte;
        proof {
            assert(byte_bit(new_byte, shift as int)) by {
                assert(((old_byte | (1u8 << shift)) >> shift) & 1u8 == 1u8) by (bit_vector)
                    requires shift < 8u8;
            }
            assert forall|j: int| 0 <= j < 8 && j != shift implies #[trigger] byte_bit(new_byte, j) == byte_bit(old_byte, j) by {
                let jj = j as u8;
                assert((((old_byte | (1u8 << shift)) >> jj) & 1u8) == ((old_byte >> jj) & 1u8)) by (bit_vector)
                    requires shift < 8u8, jj < 8u8, jj != shift;
            }
            lemma_update_byte(*old(self), *self, bit as int, true);
        }
    }

    /// Clears bit `bit`.
    pub fn clear(&mut self, bit: usize)
        requires
            bit < BITS_PER_BLOCK,
        ensures
            final(self).bits() == old(self).bits().update(bit as int, false),
    {
        let shift: u8 = (bit % 8) as u8;
        let idx = bit / 8;
        let old_byte = self.0[idx];
        let new_byte = old_byte & !(1u8 << shift);
        self.0[idx] = new_byte;
        proof {
            assert(!byte_bit(new_byte, shift as int)) by {
                assert(((old_byte & !(1u8 << shift)) >> shift) & 1u8 == 0u8) by (bit_vector)
                    requires shift < 8u8;
            }
            assert forall|j: int| 0 <= j < 8 && j != shift implies #[trigger] byte_bit(new_byte, j) == byte_bit(old_byte, j) by {
                let jj = j as u8;
                assert((((old_byte & !(1u8 << shift)) >> jj) & 1u8) == ((old_byte >> jj) & 1u8)) by (bit_vector)
                    requires shift < 8u8, jj < 8u8, jj != shift;
            }
            lemma_update_byte(*old(self), *self, bit as int, false);
        }
    }
}

/// If two blocks differ only in the byte holding bit `bit`, and within that byte only at the
/// position of `bit`, where the new block holds `v`, their bit views differ by that update.
proof fn lemma_update_byte(a: BitmapBlock, b: BitmapBlock, bit: int, v: bool)
    requires
        0 <= bit < BITS_PER_BLOCK,
        b.0@ == a.0@.update(bit / 8, b.0@[bit / 8]),
        byte_bit(b.0@[bit / 8], bit % 8) == v,
        forall|j: int| 0 <= j < 8 && j != bit % 8 ==> #[trigger] byte_bit(b.0@[bit / 8], j) == byte_bit(a.0@[bit / 8], j),
    ensures
        b.bits() == a.bits().update(bit, v),
{
    assert forall|i: int| 0 <= i < BITS_PER_BLOCK implies b.bits()[i] == a.bits().update(bit, v)[i] by {
        if i / 8 == bit / 8 {
            if i != bit {
                assert(i % 8 != bit % 8);
                assert(byte_bit(b.0@[bit / 8], i % 8) == byte_bit(a.0@[bit / 8], i % 8));
            }
        }
    }
    assert(b.bits() =~= a.bits().update(bit, v));
}

/// A link pointer is the one its image was made from: reading back the 16 bytes a pointer
/// was written as gives that pointer.
pub proof fn lemma_link_pointer_reads_back(a: LinkPointer, b: LinkPointer)
    requires
        b.image() == a.image(),
    ensures
        b == a,
{
    lemma_auto_spec_u64_to_from_le_bytes();
    assert(le64(a.start) == a.image().subrange(0, 8));
    assert(le64(b.start) == b.image().subrange(0, 8));
    assert(le64(a.size) == a.image().subrange(8, 16));
    assert(le64(b.size) == b.image().subrange(8, 16));
}

/// A directory entry is the one its image was made from.
pub proof fn lemma_dir_entry_reads_back(a: DirEntry, b: DirEntry)
    requires
        b.image() == a.image(),
    ensures
        b == a,
{
    lemma_auto_spec_u64_to_from_le_bytes();
    let ia = a.image();
    assert(a.link.image().len() == 16 && b.link.image().len() == 16);
    assert(a.name.0@ == ia.subrange(0, 36));
    assert(b.name.0@ == ia.subrange(0, 36));
    assert(a.name.0 == b.name.0);
    assert(a.flags.bits == ia[36]);
    assert(b.flags.bits == ia[36]);
    assert(a.link.image() == ia.subrange(37, 53));
    assert(b.link.image() == ia.subrange(37, 53));
    lemma_link_pointer_reads_back(a.link, b.link);
}

/// A link block read from a sector is the block that was written there: two blocks with the
/// same sector image are the same block.
pub proof fn lemma_link_block_reads_back(a: LinkBlock, b: LinkBlock)
    requires
        b.image() == a.image(),
    ensures
        b == a,
{
    assert forall|j: int| 0 <= j < 32 implies #[trigger] b.0@[j] == a.0@[j] by {
        assert forall|m: int| 0 <= m < 16 implies #[trigger] b.0@[j].image()[m] == a.0@[j].image()[m] by {
            let k = j * 16 + m;
            lemma_in_stretch(k, 16, j);
            assert(a.image()[k] == a.0@[j].image()[m]);
            assert(b.image()[k] == b.0@[j].image()[m]);
        }
        lemma_auto_spec_u64_to_from_le_bytes();
        assert(b.0@[j].image() =~= a.0@[j].image());
        lemma_link_pointer_reads_back(a.0@[j], b.0@[j]);
    }
    assert(b.0@ =~= a.0@);
    assert(b.0 == a.0);
}

/// A directory block read from a sector is the block that was written there: two blocks with
/// the same sector image are the same block.
pub proof fn lemma_dir_block_reads_back(a: DirBlock, b: DirBlock)
    requires
        b.image() == a.image(),
    ensures
        b == a,
{
    lemma_auto_spec_u64_to_from_le_bytes();
    let ia = a.image();
    assert(le64(a.parent) =~= ia.subrange(0, 8));
    assert(le64(b.parent) =~= ia.subrange(0, 8));
    assert forall|j: int| 0 <= j < 8 implies #[trigger] b.entries@[j] == a.entries@[j] by {
        assert forall|m: int| 0 <= m < 53 implies #[trigger] b.entries@[j].image()[m] == a.entries@[j].image()[m] by {
            let k = 8 + j * 53 + m;
            lemma_in_stretch(k - 8, 53, j);
            assert(a.image()[k] == a.entries@[j].image()[m]);
            assert(b.image()[k] == b.entries@[j].image()[m]);
        }
        assert(b.entries@[j].image() =~= a.entries@[j].image());
        lemma_dir_entry_reads_back(a.entries@[j], b.entries@[j]);
    }
    assert(b.entries@ =~= a.entries@);
    assert(b.entries == a.entries);
    assert(a.next.image() =~= ia.subrange(432, 448));
    assert(b.next.image() =~= ia.subrange(432, 448));
    lemma_link_pointer_reads_back(a.next, b.next);
    assert(a.padding@ =~= ia.subrange(448, 512));
    assert(b.padding@ =~= ia.subrange(448, 512));
    assert(b.padding == a.padding);
}

} // verus!
