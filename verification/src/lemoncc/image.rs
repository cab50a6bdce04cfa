//! An image opened by the tool: formatting and opening it, resolving paths, and writing,
//! reading, measuring, listing, removing and moving files.

use vstd::prelude::*;
use vstd::string::*;
use vstd::utf8::encode_utf8;
use crate::fs::hashtable::drive::StorageDrive;
use crate::fs::hashtable::hash::{fnv1a, name_to_hash};
use crate::fs::hashtable::headers::{div_ceil, u64_div_ceil};
use crate::text::{string_from_utf8_lossy, lossy_utf8};
use super::ImageError;
use super::io::{read_lba, write_lba};
use super::disk::{SuperBlock, HashEntry, HashPointer, LinkEntry, LEMONFS_MAGIC, FILENAME_LEN, HASHES_PER_BLOCK,
    zero_sector, splice, le64, put_entry, lemma_entry_fields, entry_status};
use super::space::{layout_ok, alloc_blocks, free_blocks};
use super::table::{table_ok, entry_bytes, find_entry, find_hash_slot, hash_ptr_read, hash_ptr_write, write_hash_entry,
    tombstone, find_free_slot, probe_name, name_hash};
use super::links::{chain, extent_data, chain_data, sum_sizes, read_link_data, total_file_size, free_link_chain, extend_link};
use super::dirs::{dir_children, dir_find_child, dir_add_child, dir_remove_child, stored_name, entry_chain, listing,
    first_child, entry_at, lemma_entry_at};
use crate::fs::lemonfs::path::str_eq;
use super::paths::{trimmed, components, last_piece, trim_slashes, path_components, path_last_piece, name_field};

verus! {

broadcast use vstd::string::group_string_axioms;

/// A LemonFS image on a drive, with the superblock read from it.
pub struct LemonFS<D: StorageDrive> {
    pub(crate) drive: D,
    pub(crate) superblock: SuperBlock,
}

/// The name field of the root directory: `/` padded with zeros.
pub open spec fn root_field() -> Seq<u8> {
    Seq::new(FILENAME_LEN as nat, |i: int| if i == 0 { 47u8 } else { 0u8 })
}

/// The name field of the root directory.
pub fn root_name() -> (r: [u8; FILENAME_LEN])
    ensures
        r@ == root_field(),
{
    let mut r = [0u8; FILENAME_LEN];
    r[0] = 47u8;
    assert(r@ =~= root_field());
    r
}

/// The number of hash-table slots of an image of `total` sectors.
pub open spec fn table_slots(total: int) -> int {
    if total / 10000 > 4096 { total / 10000 } else { 4096 }
}

/// The superblock that formatting an image of `total` sectors writes.
pub open spec fn fresh_superblock(sb: SuperBlock, total: int) -> bool {
    &&& sb.magic == LEMONFS_MAGIC
    &&& sb.version == 2
    &&& sb.total_blocks == total
    &&& sb.hashmap_size == table_slots(total)
    &&& sb.bitmap_size == div_ceil(total - (1 + div_ceil(table_slots(total), 6)), 4096)
    &&& sb.dirty == 0
    &&& sb.padding@ == Seq::new(477, |i: int| 0u8)
}

/// The number of bitmap sectors that formatting an image of `total` sectors writes.
pub open spec fn fresh_bitmap_size(total: int) -> int {
    div_ceil(total - (1 + div_ceil(table_slots(total), 6)), 4096)
}

/// The first data sector of an image of `total` sectors once formatted.
pub open spec fn fresh_data_start(total: int) -> int {
    1 + super::disk::ceil_div(table_slots(total), 6) + fresh_bitmap_size(total)
}

/// The layout that formatting an image of `total` sectors writes fits (see [`layout_ok`] and
/// [`table_ok`]).
pub open spec fn fresh_layout_fits(total: int) -> bool {
    let b = fresh_bitmap_size(total);
    let ds = fresh_data_start(total);
    &&& ds <= total
    &&& total <= usize::MAX
    &&& (b + 1) * 4096 <= usize::MAX
    &&& ds + b * 4096 <= u64::MAX
    &&& 0 < table_slots(total) && table_slots(total) * 2 <= u64::MAX
}

/// Formatting fits every drive of 685 sectors or more that a 32-bit machine addresses (up to
/// 0xFFFF_0000 sectors): the layout fits, the bitmap has a sector, and the first data sector
/// lies on the drive or, at 685 sectors, right after its end.
pub proof fn lemma_fresh_layout_fits(total: int)
    requires
        685 <= total <= 0xFFFF_0000,
    ensures
        fresh_layout_fits(total),
        fresh_data_start(total) <= total,
        total >= 686 ==> fresh_data_start(total) < total,
        fresh_bitmap_size(total) >= 1,
{
    let slots = table_slots(total);
    let h = super::disk::ceil_div(slots, 6);
    let b = fresh_bitmap_size(total);
    let x = total - (1 + h);
    assert(b == (x + 4095) / 4096);
    if total / 10000 > 4096 {
        assert(slots == total / 10000);
        assert(h <= total / 60000 + 1) by (nonlinear_arith)
            requires h == (slots + 5) / 6, slots == total / 10000, total >= 0;
        assert(b <= total / 4096 + 1) by (nonlinear_arith)
            requires b == (x + 4095) / 4096, x <= total, x >= 0;
        assert(1 + h + b < total) by (nonlinear_arith)
            requires h <= total / 60000 + 1, b <= total / 4096 + 1, total >= 40960000;
    } else {
        assert(slots == 4096);
        assert(h == 683);
        assert(1 <= b <= x) by (nonlinear_arith)
            requires b == (x + 4095) / 4096, x >= 1;
        assert(x >= 2 ==> b < x) by (nonlinear_arith)
            requires b == (x + 4095) / 4096, x >= 1;
        assert(b <= total / 4096 + 1) by (nonlinear_arith)
            requires b == (x + 4095) / 4096, x <= total, x >= 0;
    }
    assert((b + 1) * 4096 <= total + 8192) by (nonlinear_arith)
        requires b <= total / 4096 + 1, total >= 0;
}

/// The name field of the component `c`: its UTF-8 bytes padded with zeros, if there are one
/// to 40 of them.
pub open spec fn field_of(c: Seq<char>) -> Option<Seq<u8>> {
    let b = encode_utf8(c);
    if 0 < b.len() <= FILENAME_LEN { Some(crate::fs::hashtable::hash::padded_name(b)) } else { None }
}

/// The table of the image `s` holds the root directory's entry.
pub open spec fn root_found(s: Seq<[u8; 512]>, sb: SuperBlock) -> bool {
    probe_name(s, sb, root_field()) matches Some(x) && x.1
}

/// The table of `s` holds a directory named by the component `c`.
pub open spec fn names_dir(s: Seq<[u8; 512]>, sb: SuperBlock, c: Seq<char>) -> bool {
    field_of(c) matches Some(f) && (probe_name(s, sb, f) matches Some(x) && x.1 && entry_bytes(s, x.0)[1] == 1)
}

/// The table of `s` holds an entry named by the field `f` that is not a directory.
pub open spec fn holds_non_dir(s: Seq<[u8; 512]>, sb: SuperBlock, f: Seq<u8>) -> bool {
    probe_name(s, sb, f) matches Some(x) && x.1 && entry_bytes(s, x.0)[1] != 1
}

/// Why looking up the component `c` in the table of `s` fails, if it does: a name that is no
/// name field is `InvalidFilename`, a probe that meets no free slot `TableFull`, one that meets
/// a free slot before the name `NotFound`.
pub open spec fn find_refusal(s: Seq<[u8; 512]>, sb: SuperBlock, c: Seq<char>) -> Option<ImageError> {
    match field_of(c) {
        None => Some(ImageError::InvalidFilename),
        Some(f) => match probe_name(s, sb, f) {
            None => Some(ImageError::TableFull),
            Some(x) => if x.1 { None } else { Some(ImageError::NotFound) },
        },
    }
}

/// The slot of the table of `s` that holds the component `c` (see [`find_refusal`]).
pub open spec fn found_slot(s: Seq<[u8; 512]>, sb: SuperBlock, c: Seq<char>) -> HashPointer {
    let x = probe_name(s, sb, field_of(c)->0)->0;
    x.0
}

/// The image of the root directory's entry: used, a directory, named `/`, whose first sector
/// is `lba`, with no data and no link.
pub open spec fn root_entry_image(lba: u64) -> Seq<u8> {
    seq![1u8, 1u8] + root_field() + le64(lba) + le64(0) + le64(0) + le64(0)
}

/// The slot of the root directory's entry in a table of `slots` slots.
pub open spec fn root_slot(slots: int) -> int {
    (fnv1a(root_field()) % (slots as u64)) as int
}

/// The drive went from `old` to `new` by formatting with superblock `sb`: the superblock in
/// sector 0; zeros over the table, the bitmap and the root directory's sector, which is the
/// first data sector; the bit of that sector set; the root directory's entry in its slot; the
/// data sectors after it as they were.
pub open spec fn formatted(old: Seq<[u8; 512]>, new: Seq<[u8; 512]>, sb: SuperBlock) -> bool {
    let bs = sb.spec_bitmap_start();
    let ds = sb.spec_data_start();
    let slot = root_slot(sb.hashmap_size as int);
    let hl = 1 + slot / 6;
    &&& new.len() == (if ds == old.len() { old.len() + 1 } else { old.len() })
    &&& ds <= old.len()
    &&& bs < ds
    &&& 1 <= hl < bs
    &&& new[0]@ == sb.image()
    &&& new[hl]@ == splice(zero_sector(), (slot % 6) * 74, root_entry_image(ds as u64))
    &&& new[bs]@ == zero_sector().update(0, 1u8)
    &&& forall|l: int| 1 <= l <= ds && l != bs && l != hl ==> #[trigger] new[l]@ == zero_sector()
    &&& forall|l: int| ds < l < old.len() ==> #[trigger] new[l] == old[l]
}

/// Whether the layout of `sb` fits (see [`layout_ok`] and [`table_ok`]).
pub fn layout_fits(sb: &SuperBlock) -> (r: bool)
    ensures
        r == (layout_ok(*sb) && table_ok(*sb)),
{
    if sb.hashmap_size == 0 || sb.hashmap_size > u64::MAX / 2 {
        return false;
    }
    let bitmap_start = sb.bitmap_start();
    if sb.bitmap_size > u64::MAX - bitmap_start {
        return false;
    }
    let data_start = bitmap_start + sb.bitmap_size;
    if data_start > sb.total_blocks {
        return false;
    }
    if sb.total_blocks > usize::MAX as u64 {
        return false;
    }
    if sb.bitmap_size >= (usize::MAX / 4096) as u64 {
        return false;
    }
    proof {
        assert((sb.bitmap_size + 1) * 4096 <= usize::MAX) by (nonlinear_arith)
            requires sb.bitmap_size < usize::MAX / 4096;
    }
    if sb.bitmap_size > (u64::MAX - data_start) / 4096 {
        proof {
            assert(sb.bitmap_size * 4096 > u64::MAX - data_start) by (nonlinear_arith)
                requires sb.bitmap_size > (u64::MAX - data_start) / 4096, data_start <= u64::MAX;
        }
        return false;
    }
    proof {
        assert(sb.bitmap_size * 4096 <= u64::MAX - data_start) by (nonlinear_arith)
            requires sb.bitmap_size <= (u64::MAX - data_start) / 4096, data_start <= u64::MAX;
    }
    true
}

/// Writes zeros over sectors `[from, to)`.
fn zero_sectors<D: StorageDrive>(drive: &mut D, from: u64, to: u64) -> (r: Result<(), ImageError>)
    ensures
        final(drive).sectors().len() == old(drive).sectors().len(),
        forall|l: int| 0 <= l < old(drive).sectors().len() && !(from <= l < to) ==> #[trigger] final(drive).sectors()[l] == old(drive).sectors()[l],
        r is Ok ==> to <= from || to <= old(drive).sectors().len(),
        r is Ok ==> forall|l: int| from <= l < to ==> #[trigger] final(drive).sectors()[l]@ == zero_sector(),
        r matches Err(e) ==> e == ImageError::Io,
        D::answers_all() && to <= old(drive).sectors().len() ==> r is Ok,
{
    let zero = [0u8; 512];
    assert(zero@ =~= zero_sector());
    let mut lba = from;
    while lba < to
        invariant
            from <= lba,
            lba <= to || lba == from,
            zero@ == zero_sector(),
            lba > from ==> lba <= old(drive).sectors().len(),
            drive.sectors().len() == old(drive).sectors().len(),
            forall|l: int| 0 <= l < old(drive).sectors().len() && !(from <= l < lba) ==> #[trigger] drive.sectors()[l] == old(drive).sectors()[l],
            forall|l: int| from <= l < lba ==> #[trigger] drive.sectors()[l]@ == zero_sector(),
        decreases to - lba,
    {
        write_lba(drive, lba, &zero)?;
        lba = lba + 1;
    }
    Ok(())
}

impl<D: StorageDrive> LemonFS<D> {
    /// The sectors of the image.
    pub closed spec fn image(&self) -> Seq<[u8; 512]> {
        self.drive.sectors()
    }

    /// The superblock the image was opened with.
    pub closed spec fn sb(&self) -> SuperBlock {
        self.superblock
    }

    /// The superblock's layout fits (see [`layout_fits`]).
    pub open spec fn wf(&self) -> bool {
        layout_ok(self.sb()) && table_ok(self.sb())
    }

    /// The drive under the image.
    pub fn drive(&self) -> (r: &D)
        ensures
            r.sectors() == self.image(),
    {
        &self.drive
    }

    /// Gives the drive back.
    pub fn into_drive(self) -> (r: D)
        ensures
            r.sectors() == self.image(),
    {
        self.drive
    }

    /// The superblock the image was opened with.
    pub fn superblock(&self) -> (r: SuperBlock)
        ensures
            r == self.sb(),
    {
        self.superblock
    }

    /// Formats the drive as a fresh image (see [`formatted`]): the table gets
    /// `max(4096, sectors / 10000)` slots, the bitmap covers the rest of the drive, and the root
    /// directory takes the first data sector. A drive under three sectors is `TooSmall`.
    pub fn format(drive: D) -> (r: Result<Self, ImageError>)
        requires
            drive.sectors().len() < 3 || drive.sectors().len() >= 684,
        ensures
            r == Err::<Self, ImageError>(ImageError::TooSmall) <==> drive.sectors().len() < 3,
            drive.sectors().len() >= 3 ==> (r == Err::<Self, ImageError>(ImageError::Corrupt)
                <==> !fresh_layout_fits(drive.sectors().len() as int)),
            drive.sectors().len() >= 3 && fresh_layout_fits(drive.sectors().len() as int)
                && (fresh_data_start(drive.sectors().len() as int) > drive.sectors().len()
                    || (fresh_data_start(drive.sectors().len() as int) == drive.sectors().len()
                        && fresh_bitmap_size(drive.sectors().len() as int) == 0))
                ==> r == Err::<Self, ImageError>(ImageError::Io),
            D::answers_all() && 685 <= drive.sectors().len() <= 0xFFFF_0000 ==> r is Ok,
            r matches Ok(fs) ==> fs.wf() && fresh_superblock(fs.sb(), drive.sectors().len() as int)
                && formatted(drive.sectors(), fs.image(), fs.sb()),
            r matches Err(e) ==> e == ImageError::Io || e == ImageError::TooSmall || e == ImageError::Corrupt,
    {
        let mut drive = drive;
        let ghost s0 = drive.sectors();
        let total_lbas = drive.sector_count();
        if total_lbas < 3 {
            return Err(ImageError::TooSmall);
        }
        let hashmap_size: u64 = if total_lbas / 10000 > 4096 { total_lbas / 10000 } else { 4096 };
        let hash_blocks = u64_div_ceil(hashmap_size, HASHES_PER_BLOCK);
        proof {
            vstd::arithmetic::div_mod::lemma_fundamental_div_mod(hashmap_size + 5, 6);
            vstd::arithmetic::div_mod::lemma_fundamental_div_mod(total_lbas as int, 10000);
            assert(hash_blocks <= 683 || hash_blocks <= total_lbas / 10000);
        }
        let remaining = total_lbas - (1 + hash_blocks);
        let bitmap_size = u64_div_ceil(remaining, 4096);
        let superblock = SuperBlock {
            magic: LEMONFS_MAGIC,
            version: 2,
            total_blocks: total_lbas,
            hashmap_size,
            bitmap_size,
            dirty: 0,
            padding: [0u8; 477],
        };
        assert(superblock.padding@ =~= Seq::new(477, |i: int| 0u8));
        assert(fresh_layout_fits(total_lbas as int) == (layout_ok(superblock) && table_ok(superblock)));
        if !layout_fits(&superblock) {
            return Err(ImageError::Corrupt);
        }
        let bitmap_start = superblock.bitmap_start();
        let data_start = superblock.data_start();
        if data_start > total_lbas || bitmap_start >= total_lbas {
            // The bitmap sector to mark, or a sector after it, lies past the end of the drive.
            return Err(ImageError::Io);
        }
        if data_start == total_lbas {
            // The root directory's sector lies just past the end: the drive grows by it, as an
            // image file grows when that sector is written.
            match drive.grow(1) {
                Ok(()) => {}
                Err(_) => {
                    return Err(ImageError::Io);
                }
            }
        }
        proof {
            if D::answers_all() && 685 <= total_lbas <= 0xFFFF_0000 {
                lemma_fresh_layout_fits(total_lbas as int);
            }
        }
        proof {
            vstd::arithmetic::div_mod::lemma_fundamental_div_mod(remaining + 4095, 4096);
            assert(bitmap_size >= 1);
        }
        let sector0 = superblock.to_sector();
        write_lba(&mut drive, 0, &sector0)?;
        let ghost s1 = drive.sectors();
        zero_sectors(&mut drive, 1, bitmap_start)?;
        zero_sectors(&mut drive, bitmap_start, data_start)?;
        let mut bm = read_lba(&mut drive, bitmap_start)?;
        bm[0] = bm[0] | 1u8;
        assert(bm@ =~= zero_sector().update(0, 1u8)) by {
            assert(0u8 | 1u8 == 1u8) by (bit_vector);
        }
        write_lba(&mut drive, bitmap_start, &bm)?;
        let empty = [0u8; 512];
        assert(empty@ =~= zero_sector());
        write_lba(&mut drive, data_start, &empty)?;
        let name = root_name();
        let root_hash = name_to_hash(&name);
        let slot = root_hash % hashmap_size;
        let hash_lba = 1 + slot / HASHES_PER_BLOCK;
        let hash_offset = (slot % HASHES_PER_BLOCK) as usize;
        proof {
            vstd::arithmetic::div_mod::lemma_fundamental_div_mod(slot as int, 6);
            assert(hash_lba < bitmap_start);
        }
        let root_entry = HashEntry {
            status: 1,
            type_: 1,
            name,
            start_block: data_start,
            file_size: 0,
            link_ptr: 0,
            link_size: 0,
        };
        proof {
            assert(root_entry.image() =~= root_entry_image(data_start));
        }
        let ghost before_entry = drive.sectors();
        let mut hb = read_lba(&mut drive, hash_lba)?;
        put_entry(&mut hb, hash_offset, &root_entry);
        write_lba(&mut drive, hash_lba, &hb)?;
        let fs = LemonFS { drive, superblock };
        proof {
            let new = fs.drive.sectors();
            assert(before_entry[hash_lba as int]@ == zero_sector());
            assert forall|l: int| 1 <= l <= data_start && l != bitmap_start && l != hash_lba implies #[trigger] new[l]@ == zero_sector() by {
                assert(new[l] == before_entry[l]);
            }
            assert forall|l: int| data_start < l < s0.len() implies #[trigger] new[l] == s0[l] by {
                assert(new[l] == before_entry[l]);
            }
        }
        Ok(fs)
    }

    /// Opens the image on the drive: reads its superblock, or formats the drive (see
    /// [`Self::format`]) when sector 0 does not hold the LemonFS magic; the flag says which.
    /// A superblock whose layout does not fit is `Corrupt`.
    pub fn open(drive: D) -> (r: Result<(Self, bool), ImageError>)
        requires
            drive.sectors().len() < 3 || drive.sectors().len() >= 684,
        ensures
            r matches Ok((fs, formatted_now)) ==> fs.wf() && ({
                if formatted_now {
                    fresh_superblock(fs.sb(), drive.sectors().len() as int) && formatted(drive.sectors(), fs.image(), fs.sb())
                } else {
                    fs.sb().magic == LEMONFS_MAGIC && 0 < drive.sectors().len()
                        && fs.sb().image() == drive.sectors()[0]@ && fs.image() == drive.sectors()
                }
            }),
            r matches Err(e) ==> e == ImageError::Io || e == ImageError::TooSmall || e == ImageError::Corrupt,
    {
        let mut drive = drive;
        let ghost s0 = drive.sectors();
        let sector = read_lba(&mut drive, 0)?;
        let superblock = SuperBlock::from_sector(&sector);
        if superblock.magic != LEMONFS_MAGIC {
            let fs = Self::format(drive)?;
            return Ok((fs, true));
        }
        if !layout_fits(&superblock) {
            return Err(ImageError::Corrupt);
        }
        Ok((LemonFS { drive, superblock }, false))
    }
}

/// The text of a stored name: its bytes up to the first zero, decoded as
/// `String::from_utf8_lossy` does.
pub open spec fn name_string(field: Seq<u8>) -> Seq<char> {
    lossy_utf8(stored_name(field))
}

/// The stored name of a name field, as text.
pub fn entry_name(bytes: &[u8; FILENAME_LEN]) -> (r: String)
    ensures
        r@ == name_string(bytes@),
{
    let len = crate::fs::hashtable::hash::stored_name_len(bytes);
    let prefix = vstd::slice::slice_subrange(bytes, 0, len);
    string_from_utf8_lossy(prefix)
}

/// The names, as text, of the used entries that `kids` point to, in order.
pub open spec fn used_names(sectors: Seq<[u8; 512]>, kids: Seq<HashPointer>) -> Seq<Seq<char>>
    decreases kids.len(),
{
    if kids.len() == 0 {
        Seq::empty()
    } else {
        let e = entry_bytes(sectors, kids.last());
        used_names(sectors, kids.drop_last()) + (if entry_status(e) == 1 { seq![name_string(e.subrange(2, 42))] } else { Seq::empty() })
    }
}

/// The name stored in a field padded from `x`, which has no zero byte, is `x`.
proof fn lemma_stored_padded(x: Seq<u8>)
    requires
        x.len() <= FILENAME_LEN,
        forall|k: int| 0 <= k < x.len() ==> x[k] != 0,
    ensures
        stored_name(crate::fs::hashtable::hash::padded_name(x)) == x,
{
    let b = crate::fs::hashtable::hash::padded_name(x);
    if x.len() < FILENAME_LEN {
        assert(crate::fs::hashtable::hash::is_name_end(b, x.len() as int));
        let n = choose|n: int| crate::fs::hashtable::hash::is_name_end(b, n);
        if n < x.len() {
            assert(b[n] == x[n]);
        } else if n > x.len() {
            assert(b[x.len() as int] == 0);
        }
        assert(crate::fs::hashtable::hash::name_len(b) == x.len());
    } else {
        assert(!exists|n: int| crate::fs::hashtable::hash::is_name_end(b, n)) by {
            assert forall|n: int| !crate::fs::hashtable::hash::is_name_end(b, n) by {
                if 0 <= n < b.len() {
                    assert(b[n] == x[n]);
                }
            }
        }
    }
    assert(b.subrange(0, x.len() as int) =~= x);
}

/// A name without `/` whose encoding holds no zero byte is not the root's name.
proof fn lemma_not_root_name(n: Seq<char>)
    requires
        n.len() > 0,
        forall|k: int| 0 <= k < n.len() ==> n[k] != '/',
        encode_utf8(n).len() <= FILENAME_LEN,
        forall|k: int| 0 <= k < encode_utf8(n).len() ==> encode_utf8(n)[k] != 0,
    ensures
        crate::fs::hashtable::hash::padded_name(encode_utf8(n)) != root_field(),
{
    let x = encode_utf8(n);
    if crate::fs::hashtable::hash::padded_name(x) == root_field() {
        if x.len() >= 2 {
            assert(crate::fs::hashtable::hash::padded_name(x)[1] == x[1]);
            assert(root_field()[1] == 0);
        }
        vstd::utf8::encode_utf8_first_scalar(n);
        if x.len() == 0 {
            vstd::utf8::encode_utf8_decode_utf8(n);
            assert(x =~= Seq::<u8>::empty());
            assert(vstd::utf8::decode_utf8(Seq::<u8>::empty()) =~= Seq::<char>::empty());
        } else {
            assert(crate::fs::hashtable::hash::padded_name(x)[0] == x[0]);
            assert(root_field()[0] == 47u8);
            assert(x[0] == 47u8);
            assert(x =~= seq![47u8]);
            assert((47u8 & 0x7Fu8) == 47u8) by (bit_vector);
            assert(vstd::utf8::decode_first_scalar(seq![47u8]) == 47u32);
            assert(n[0] as u32 == 47);
            vstd::utf8::char_u32_cast(n[0], 47u32);
            vstd::utf8::char_u32_cast('/', 47u32);
            assert(n[0] == '/');
        }
    }
}

/// The root directory's entry: the used entry that the table holds under the root's name.
pub open spec fn root_dir_entry(s: Seq<[u8; 512]>, sb: SuperBlock) -> Option<HashEntry> {
    match probe_name(s, sb, root_field()) {
        Some(x) => if x.1 { Some(entry_at(s, x.0)) } else { None },
        None => None,
    }
}

/// The directory reached from `dir` through the directories that `comps` names in turn: each
/// the first child, named by its component, of the one before, which must be a directory.
pub open spec fn walk_dirs(s: Seq<[u8; 512]>, dir: HashEntry, comps: Seq<Seq<char>>) -> Option<HashEntry>
    decreases comps.len(),
{
    if comps.len() == 0 {
        Some(dir)
    } else {
        match walk_dirs(s, dir, comps.drop_last()) {
            Some(d) => match first_child(s, d, encode_utf8(comps.last())) {
                Some(p) => if entry_at(s, p).type_ == 1 { Some(entry_at(s, p)) } else { None },
                None => None,
            },
            None => None,
        }
    }
}

/// A walk that stops on the way stops for any longer path.
proof fn lemma_walk_prefix_none(s: Seq<[u8; 512]>, dir: HashEntry, comps: Seq<Seq<char>>, k: int)
    requires
        0 <= k <= comps.len(),
        walk_dirs(s, dir, comps.subrange(0, k)) is None,
    ensures
        walk_dirs(s, dir, comps) is None,
    decreases comps.len() - k,
{
    if k < comps.len() {
        let longer = comps.subrange(0, k + 1);
        assert(longer.drop_last() =~= comps.subrange(0, k));
        lemma_walk_prefix_none(s, dir, comps, k + 1);
    } else {
        assert(comps.subrange(0, k) =~= comps);
    }
}

/// A walk that reaches `current` after `k` components and finds no directory for the next
/// stops there, for the whole path.
proof fn lemma_walk_step_fails(s: Seq<[u8; 512]>, dir: HashEntry, comps: Seq<Seq<char>>, k: int, current: HashEntry)
    requires
        0 <= k < comps.len(),
        walk_dirs(s, dir, comps.subrange(0, k)) == Some(current),
        first_child(s, current, encode_utf8(comps[k])) matches Some(p) ==> entry_at(s, p).type_ != 1,
    ensures
        walk_dirs(s, dir, comps) is None,
{
    let cs = comps.subrange(0, k + 1);
    assert(cs.drop_last() =~= comps.subrange(0, k));
    assert(cs.last() == comps[k]);
    lemma_walk_prefix_none(s, dir, comps, k + 1);
}

/// The directory that holds the last component of `path`: the one reached from the root
/// through the other components.
pub open spec fn parent_dir(s: Seq<[u8; 512]>, sb: SuperBlock, path: Seq<char>) -> Option<HashEntry> {
    match root_dir_entry(s, sb) {
        Some(root) => walk_dirs(s, root, components(trimmed(path)).drop_last()),
        None => None,
    }
}

/// The file that `path` names: the first child of its parent directory that is named like
/// the last piece of the path, when that child is a file.
pub open spec fn path_file(s: Seq<[u8; 512]>, sb: SuperBlock, path: Seq<char>) -> Option<HashEntry> {
    match parent_dir(s, sb, path) {
        Some(d) => match first_child(s, d, encode_utf8(last_piece(trimmed(path)))) {
            Some(p) => if entry_at(s, p).type_ == 0 { Some(entry_at(s, p)) } else { None },
            None => None,
        },
        None => None,
    }
}

/// The image takes a new file at its root under `path`: the path is a single name (no `/`)
/// whose encoding has no zero byte and fits a name field; the root directory lies at the first
/// data sector, which the bitmap marks used, has no link chain and has an empty slot; the
/// table holds no entry of the name; and each child the root lists is an entry of the table,
/// not the slot that the name's probe offers, and not named like the file (see
/// [`root_child_apart`]).
pub open spec fn root_write_ready(s: Seq<[u8; 512]>, sb: SuperBlock, path: Seq<char>) -> bool {
    let n = trimmed(path);
    let x = encode_utf8(n);
    let ds = sb.spec_data_start();
    &&& n.len() > 0
    &&& forall|k: int| 0 <= k < n.len() ==> n[k] != '/'
    &&& x.len() <= FILENAME_LEN
    &&& forall|k: int| 0 <= k < x.len() ==> x[k] != 0
    &&& root_dir_entry(s, sb) matches Some(root) && root.link_ptr == 0 && root.start_block == ds
    &&& ds < s.len()
    &&& exists|i: int| 0 <= i < 56 && #[trigger] super::disk::ptrs_of(s[ds]@)[i].lba == 0
    &&& super::space::sector_bits(s[sb.spec_bitmap_start()]@)[0]
    &&& probe_name(s, sb, crate::fs::hashtable::hash::padded_name(x)) matches Some(f) && !f.1
        && forall|j: int| 0 <= j < 56 && #[trigger] super::disk::ptrs_of(s[ds]@)[j].lba != 0
            ==> root_child_apart(s, sb, super::disk::ptrs_of(s[ds]@)[j], x, f.0)
}

/// The image holds a file at its root under `path` that can be written in place: the path is
/// a single name (no `/`) whose encoding has no zero byte and fits a name field; the root
/// directory lies at the first data sector, has no link chain, lists only entries of the table,
/// has a free slot and lists the file's entry first among those named like it; the first data
/// sector is marked used; the file has no link chain and starts past the root's sector.
pub open spec fn root_file_ready(s: Seq<[u8; 512]>, sb: SuperBlock, path: Seq<char>) -> bool {
    let n = trimmed(path);
    let x = encode_utf8(n);
    let ds = sb.spec_data_start();
    &&& n.len() > 0
    &&& forall|k: int| 0 <= k < n.len() ==> n[k] != '/'
    &&& x.len() <= FILENAME_LEN
    &&& forall|k: int| 0 <= k < x.len() ==> x[k] != 0
    &&& match root_dir_entry(s, sb) {
        Some(root) => root.link_ptr == 0 && root.start_block == ds && match super::dirs::first_child(s, root, x) {
            Some(c) => probe_name(s, sb, crate::fs::hashtable::hash::padded_name(x)) == Some((c, true))
                && entry_at(s, c).type_ == 0 && entry_at(s, c).link_ptr == 0
                && ds < entry_at(s, c).start_block,
            None => false,
        },
        None => false,
    }
    &&& ds < s.len()
    &&& forall|j: int| 0 <= j < 56 && #[trigger] super::disk::ptrs_of(s[ds]@)[j].lba != 0
        ==> super::disk::ptrs_of(s[ds]@)[j].lba < sb.spec_bitmap_start() && super::disk::ptrs_of(s[ds]@)[j].offset < 6
    &&& exists|i: int| 0 <= i < 56 && #[trigger] super::disk::ptrs_of(s[ds]@)[i].lba == 0
    &&& super::space::sector_bits(s[sb.spec_bitmap_start()]@)[0]
}

/// The size of the file at the root under `path` (see [`root_file_ready`]).
pub open spec fn root_file_size(s: Seq<[u8; 512]>, sb: SuperBlock, path: Seq<char>) -> int {
    match root_dir_entry(s, sb) {
        Some(root) => match super::dirs::first_child(s, root, encode_utf8(trimmed(path))) {
            Some(c) => entry_at(s, c).file_size as int,
            None => 0,
        },
        None => 0,
    }
}

/// The image takes a rewrite of the file at its root under `path` (see [`root_file_ready`])
/// with `len` bytes, at most as many as the file holds.
pub open spec fn root_rewrite_ready(s: Seq<[u8; 512]>, sb: SuperBlock, path: Seq<char>, len: int) -> bool {
    root_file_ready(s, sb, path) && 0 < len <= root_file_size(s, sb, path)
}

/// The image takes a rewrite of the file at its root under `path` (see [`root_file_ready`])
/// with `len` bytes, more than the file holds.
pub open spec fn root_regrow_ready(s: Seq<[u8; 512]>, sb: SuperBlock, path: Seq<char>, len: int) -> bool {
    root_file_ready(s, sb, path) && root_file_size(s, sb, path) < len
}

/// The file that `path` names at the root lies, with all its sectors, among the sectors that
/// the superblock counts and that the bitmap covers.
pub open spec fn root_file_within(s: Seq<[u8; 512]>, sb: SuperBlock, path: Seq<char>) -> bool {
    match root_dir_entry(s, sb) {
        Some(root) => match super::dirs::first_child(s, root, encode_utf8(trimmed(path))) {
            Some(c) => super::space::in_bitmap(sb, entry_at(s, c).start_block as int, div_ceil(entry_at(s, c).file_size as int, 512))
                && entry_at(s, c).start_block + div_ceil(entry_at(s, c).file_size as int, 512) <= sb.total_blocks,
            None => false,
        },
        None => false,
    }
}

/// The image takes a move of a file at its root to a new name at its root: both paths are
/// single names (no `/`), different, whose encodings have no zero byte and fit a name field;
/// the root directory lies at the first data sector, has no link chain and lists only entries
/// of the table; the source is the only child named like it and is a file with no link chain
/// whose sectors lie on the drive past the root's sector; no child is named like the
/// destination.
pub open spec fn root_move_ready(s: Seq<[u8; 512]>, sb: SuperBlock, src: Seq<char>, dest: Seq<char>) -> bool {
    let a = trimmed(src);
    let b = trimmed(dest);
    let xa = encode_utf8(a);
    let xb = encode_utf8(b);
    let ds = sb.spec_data_start();
    let ps = super::disk::ptrs_of(s[ds]@);
    &&& plain_name(a) && plain_name(b) && a != b
    &&& xa.len() <= FILENAME_LEN
    &&& forall|k: int| 0 <= k < xa.len() ==> xa[k] != 0
    &&& xb.len() <= FILENAME_LEN
    &&& forall|k: int| 0 <= k < xb.len() ==> xb[k] != 0
    &&& ds < s.len()
    &&& forall|j: int| 0 <= j < 56 && #[trigger] ps[j].lba != 0 ==> ps[j].lba < sb.spec_bitmap_start() && ps[j].offset < 6
        && !super::dirs::child_matches(s, ps[j], xb)
    &&& match root_dir_entry(s, sb) {
        Some(root) => root.type_ == 1 && root.link_ptr == 0 && root.start_block == ds && match super::dirs::first_child(s, root, xa) {
            Some(sp) => entry_at(s, sp).type_ == 0 && entry_at(s, sp).link_ptr == 0 && ds < entry_at(s, sp).start_block
                && entry_at(s, sp).start_block + div_ceil(entry_at(s, sp).file_size as int, 512) <= s.len()
                && forall|j: int| 0 <= j < 56 && #[trigger] ps[j].lba != 0 && super::dirs::child_matches(s, ps[j], xa) ==> ps[j] == sp,
            None => false,
        },
        None => false,
    }
}

/// `e` is the entry `f` moved under the name field `name`: used, and otherwise as `f` was.
pub open spec fn moved_as(e: HashEntry, f: HashEntry, name: Seq<u8>) -> bool {
    &&& e.status == 1
    &&& e.name@ == name
    &&& e.type_ == f.type_
    &&& e.start_block == f.start_block
    &&& e.file_size == f.file_size
    &&& e.link_ptr == f.link_ptr
    &&& e.link_size == f.link_size
}

/// The root's child `q` is an entry of the table, is not the slot `p`, and is not a used entry
/// named `x`.
pub open spec fn root_child_apart(s: Seq<[u8; 512]>, sb: SuperBlock, q: HashPointer, x: Seq<u8>, p: HashPointer) -> bool {
    &&& q.lba < sb.spec_bitmap_start()
    &&& q.offset < 6
    &&& q != p
    &&& !super::dirs::child_matches(s, q, x)
}

/// Table entries are read from the table's sectors only.
proof fn lemma_table_same(s: Seq<[u8; 512]>, t: Seq<[u8; 512]>, sb: SuperBlock)
    requires
        s.len() == t.len(),
        sb.spec_bitmap_start() <= s.len(),
        forall|l: int| 0 <= l < sb.spec_bitmap_start() ==> #[trigger] t[l] == s[l],
    ensures
        forall|slot: int| 0 <= slot < sb.hashmap_size ==> #[trigger] entry_bytes(s, super::table::slot_ptr(slot))
            == entry_bytes(t, super::table::slot_ptr(slot)),
{
    assert forall|slot: int| 0 <= slot < sb.hashmap_size implies #[trigger] entry_bytes(s, super::table::slot_ptr(slot))
        == entry_bytes(t, super::table::slot_ptr(slot)) by {
        super::table::lemma_slot_in_table(slot, sb);
    }
}

/// While a first file is written at the root, the root's sector is left as it was until its
/// pointer is added.
proof fn lemma_root_sector_kept(s0: Seq<[u8; 512]>, s1: Seq<[u8; 512]>, s2: Seq<[u8; 512]>, s3: Seq<[u8; 512]>,
    sb: SuperBlock, path: Seq<char>, data: Seq<u8>, name: [u8; FILENAME_LEN], st: int, start: u64, p: HashPointer)
    requires
        layout_ok(sb),
        table_ok(sb),
        sb.spec_data_start() < s0.len(),
        super::space::sector_bits(s0[sb.spec_bitmap_start()]@)[0],
        data.len() > 0,
        name@ == crate::fs::hashtable::hash::padded_name(encode_utf8(trimmed(path))),
        super::space::only_bitmap_changed(s0, s1, sb.spec_bitmap_start(), sb.bitmap_size as int),
        super::space::alloc_search(s0, sb.spec_bitmap_start(), sb.bitmap_size as int, sb.total_blocks - sb.spec_data_start(),
            div_ceil(data.len() as int, 512), 0) == Some(st),
        start == sb.spec_data_start() + st,
        s2.len() == s1.len(),
        forall|l: int| 0 <= l < s1.len() && !(start <= l < start + div_ceil(data.len() as int, 512))
            ==> #[trigger] s2[l] == s1[l],
        probe_name(s2, sb, name@) matches Some(x) && x.0 == p,
        p.offset < 6,
        super::table::sector_spliced(s2, s3, p.lba as int, p.offset * 74,
            super::table::used_entry(name, 0, start, data.len() as u64, 0, 0).image()),
    ensures
        s3[sb.spec_data_start()] == s0[sb.spec_data_start()],
        s3.len() == s0.len(),
{
    let bs = sb.spec_bitmap_start();
    let ds = sb.spec_data_start();
    let total = sb.hashmap_size as int;
    let nm = name@;
    let hstart = (name_hash(nm) % sb.hashmap_size) as int;
    lemma_div_ceil_sectors(data.len() as int);
    super::space::lemma_alloc_skips_first(s0, bs, sb.bitmap_size as int, sb.total_blocks - ds,
        div_ceil(data.len() as int, 512), 0);
    lemma_table_same(s0, s2, sb);
    super::table::lemma_probe_frame(s0, s2, total, hstart, nm, 0, None);
    super::table::lemma_probe_in_table(s0, total, hstart, nm, 0, None);
    let ps = choose|slot: int| 0 <= slot < total && p == super::table::slot_ptr(slot);
    super::table::lemma_slot_in_table(ps, sb);
    assert(s1[ds] == s0[ds]);
    assert(s2[ds] == s1[ds]);
}

/// The steps of writing a first file at the root keep the probe for its name working: the
/// table is as it was until the entry is written, so the probe still offers a slot, and once
/// the entry is written there the probe finds it.
proof fn lemma_ready_probe_steps(s0: Seq<[u8; 512]>, s2: Seq<[u8; 512]>, s3: Seq<[u8; 512]>,
    sb: SuperBlock, path: Seq<char>, data: Seq<u8>, name: [u8; FILENAME_LEN], start: u64, p: HashPointer)
    requires
        layout_ok(sb),
        table_ok(sb),
        root_write_ready(s0, sb, path),
        name@ == crate::fs::hashtable::hash::padded_name(encode_utf8(trimmed(path))),
        s2.len() == s0.len(),
        forall|l: int| 0 <= l < sb.spec_bitmap_start() ==> #[trigger] s2[l] == s0[l],
    ensures
        probe_name(s2, sb, name@) == probe_name(s0, sb, name@),
        probe_name(s2, sb, name@) matches Some(x) && !x.1,
        (probe_name(s2, sb, name@) matches Some(x) && x.0 == p)
            && super::table::sector_spliced(s2, s3, p.lba as int, p.offset * 74,
                super::table::used_entry(name, 0, start, data.len() as u64, 0, 0).image())
            ==> probe_name(s3, sb, name@) == Some((p, true)),
{
    let nm = name@;
    let total = sb.hashmap_size as int;
    let hstart = (name_hash(nm) % sb.hashmap_size) as int;
    lemma_stored_padded(encode_utf8(trimmed(path)));
    lemma_table_same(s0, s2, sb);
    super::table::lemma_probe_frame(s0, s2, total, hstart, nm, 0, None);
    if (probe_name(s2, sb, name@) matches Some(x) && x.0 == p)
        && super::table::sector_spliced(s2, s3, p.lba as int, p.offset * 74,
            super::table::used_entry(name, 0, start, data.len() as u64, 0, 0).image()) {
        super::table::lemma_probe_in_table(s0, total, hstart, nm, 0, None);
        let ps = choose|slot: int| 0 <= slot < total && p == super::table::slot_ptr(slot);
        super::table::lemma_slot_in_table(ps, sb);
        let e = super::table::used_entry(name, 0, start, data.len() as u64, 0, 0);
        super::disk::lemma_entry_fields(e);
        super::table::lemma_entry_after_splice(s2, s3, p, e.image(), p);
        assert forall|slot: int| 0 <= slot < total && super::table::slot_ptr(slot) != p
            implies #[trigger] entry_bytes(s3, super::table::slot_ptr(slot)) == entry_bytes(s2, super::table::slot_ptr(slot)) by {
            super::table::lemma_slot_in_table(slot, sb);
            super::table::lemma_entry_after_splice(s2, s3, p, e.image(), super::table::slot_ptr(slot));
        }
        super::table::lemma_probe_finds_written(s2, s3, total, hstart, nm, 0, p);
    }
}

/// The first match in `kids` followed by `z`: the first in `kids`, else `z` if it matches.
proof fn lemma_first_match_push(sectors: Seq<[u8; 512]>, kids: Seq<HashPointer>, z: HashPointer, name: Seq<u8>)
    ensures
        super::dirs::first_match(sectors, kids.push(z), name) == match super::dirs::first_match(sectors, kids, name) {
            Some(q) => Some(q),
            None => if super::dirs::child_matches(sectors, z, name) { Some(z) } else { None },
        },
    decreases kids.len(),
{
    let kz = kids.push(z);
    if kids.len() > 0 {
        assert(kz.drop_first() =~= kids.drop_first().push(z));
        assert(kz[0] == kids[0]);
        lemma_first_match_push(sectors, kids.drop_first(), z, name);
        if !super::dirs::child_matches(sectors, kids[0], name) {
            assert(super::dirs::first_match(sectors, kz, name) == super::dirs::first_match(sectors, kz.drop_first(), name));
            assert(super::dirs::first_match(sectors, kids, name) == super::dirs::first_match(sectors, kids.drop_first(), name));
        }
    } else {
        assert(kz.drop_first() =~= Seq::<HashPointer>::empty());
        assert(kz[0] == z);
        assert(super::dirs::first_match(sectors, kids, name) is None);
        assert(super::dirs::first_match(sectors, kz.drop_first(), name) is None);
    }
}

/// Among the live pointers of the first `k` slots of a directory sector in which only slot
/// `i`, holding `p`, points to a used entry named `name`, the first that does is `p` once
/// slot `i` is among them.
proof fn lemma_live_first_match(sectors: Seq<[u8; 512]>, ps: Seq<HashPointer>, i: int, p: HashPointer, name: Seq<u8>, k: int)
    requires
        0 <= i < ps.len(),
        0 <= k <= ps.len(),
        ps[i] == p,
        p.lba != 0,
        super::dirs::child_matches(sectors, p, name),
        forall|j: int| 0 <= j < ps.len() && j != i && #[trigger] ps[j].lba != 0 ==> !super::dirs::child_matches(sectors, ps[j], name),
    ensures
        super::dirs::first_match(sectors, super::dirs::live_ptrs(ps.subrange(0, k)), name)
            == (if k > i { Some(p) } else { None::<HashPointer> }),
    decreases k,
{
    if k > 0 {
        lemma_live_first_match(sectors, ps, i, p, name, k - 1);
        let a = ps.subrange(0, k);
        assert(a.drop_last() =~= ps.subrange(0, k - 1));
        let prev = super::dirs::live_ptrs(ps.subrange(0, k - 1));
        let z = ps[k - 1];
        if z.lba != 0 {
            assert(prev + seq![z] =~= prev.push(z));
            lemma_first_match_push(sectors, prev, z, name);
        } else {
            assert(prev + Seq::<HashPointer>::empty() =~= prev);
        }
    } else {
        assert(ps.subrange(0, 0) =~= Seq::<HashPointer>::empty());
    }
}

/// A first file written at the root reads back: when the image was ready (see
/// [`root_write_ready`]) and went through the steps of writing `data` as a new file (its
/// sectors allocated past the root's, the data written there, its entry written in the slot
/// the probe offered, that entry found, and its pointer put in a slot of the root's sector),
/// the path names a file whose contents are `data`.
proof fn lemma_first_root_file(s0: Seq<[u8; 512]>, s1: Seq<[u8; 512]>, s2: Seq<[u8; 512]>, s3: Seq<[u8; 512]>,
    s4: Seq<[u8; 512]>, sb: SuperBlock, path: Seq<char>, data: Seq<u8>, name: [u8; FILENAME_LEN], st: int,
    start: u64, p: HashPointer, c: HashPointer, slot_i: int, rp: HashPointer, root: HashEntry)
    requires
        layout_ok(sb),
        probe_name(s0, sb, root_field()) == Some((rp, true)),
        root.image() == entry_bytes(s0, rp),
        table_ok(sb),
        root_write_ready(s0, sb, path),
        data.len() > 0,
        data.len() <= u64::MAX,
        name@ == crate::fs::hashtable::hash::padded_name(encode_utf8(trimmed(path))),
        super::space::only_bitmap_changed(s0, s1, sb.spec_bitmap_start(), sb.bitmap_size as int),
        super::space::alloc_search(s0, sb.spec_bitmap_start(), sb.bitmap_size as int, sb.total_blocks - sb.spec_data_start(),
            div_ceil(data.len() as int, 512), 0) == Some(st),
        start == sb.spec_data_start() + st,
        s2.len() == s1.len(),
        forall|l: int| 0 <= l < s1.len() && !(start <= l < start + div_ceil(data.len() as int, 512))
            ==> #[trigger] s2[l] == s1[l],
        forall|i: int| 0 <= i < div_ceil(data.len() as int, 512) ==> #[trigger] s2[start + i]@ == chunk(data, 512 * i),
        start + div_ceil(data.len() as int, 512) <= s1.len(),
        probe_name(s2, sb, name@) matches Some(x) && x.0 == p,
        p.offset < 6,
        super::table::sector_spliced(s2, s3, p.lba as int, p.offset * 74,
            super::table::used_entry(name, 0, start, data.len() as u64, 0, 0).image()),
        probe_name(s3, sb, name@) == Some((c, true)),
        0 <= slot_i < 56,
        super::table::sector_spliced(s3, s4, sb.spec_data_start(), slot_i * 9, c.image()),
    ensures
        path_file(s4, sb, path) matches Some(e) && file_data(s4, e) == Some(data),
{
    let n = trimmed(path);
    let x = encode_utf8(n);
    let bs = sb.spec_bitmap_start();
    let ds = sb.spec_data_start();
    let total = sb.hashmap_size as int;
    let nm = name@;
    let k = div_ceil(data.len() as int, 512);
    lemma_entry_at(s0, rp, root);
    assert(root_dir_entry(s0, sb) == Some(root));
    let hstart = (name_hash(nm) % sb.hashmap_size) as int;
    let rstart = (name_hash(root_field()) % sb.hashmap_size) as int;
    super::paths::lemma_plain_name(n);
    lemma_not_root_name(n);
    lemma_stored_padded(x);
    lemma_div_ceil_sectors(data.len() as int);
    // The run starts past the root's sector.
    super::space::lemma_alloc_skips_first(s0, bs, sb.bitmap_size as int, sb.total_blocks - ds, k, 0);
    assert(st >= 1);
    // The table is as it was until the entry is written.
    lemma_table_same(s0, s2, sb);
    super::table::lemma_probe_frame(s0, s2, total, hstart, nm, 0, None);
    super::table::lemma_probe_frame(s0, s2, total, rstart, root_field(), 0, None);
    let f = probe_name(s0, sb, nm)->0;
    assert(f == (p, false));
    super::table::lemma_probe_in_table(s0, total, hstart, nm, 0, None);
    let ps = choose|slot: int| 0 <= slot < total && p == super::table::slot_ptr(slot);
    super::table::lemma_slot_in_table(ps, sb);
    super::table::lemma_probe_offers_free(s2, total, hstart, nm, 0, None, p);
    super::table::lemma_probe_in_table(s0, total, rstart, root_field(), 0, None);
    let rs = choose|slot: int| 0 <= slot < total && rp == super::table::slot_ptr(slot);
    super::table::lemma_slot_in_table(rs, sb);
    super::table::lemma_probe_found_used(s2, total, rstart, root_field(), 0, None, rp);
    assert(rp != p);
    // The written entry.
    let e = super::table::used_entry(name, 0, start, data.len() as u64, 0, 0);
    super::disk::lemma_entry_fields(e);
    super::table::lemma_entry_after_splice(s2, s3, p, e.image(), p);
    assert forall|slot: int| 0 <= slot < total && super::table::slot_ptr(slot) != p
        implies #[trigger] entry_bytes(s3, super::table::slot_ptr(slot)) == entry_bytes(s2, super::table::slot_ptr(slot)) by {
        super::table::lemma_slot_in_table(slot, sb);
        super::table::lemma_entry_after_splice(s2, s3, p, e.image(), super::table::slot_ptr(slot));
    }
    super::table::lemma_probe_finds_written(s2, s3, total, hstart, nm, 0, p);
    assert(c == p);
    super::table::lemma_probe_keeps_found(s2, s3, total, rstart, root_field(), 0, None, None, p, rp);
    // The root's sector is the last to change, and only in the slot taken.
    lemma_table_same(s3, s4, sb);
    super::table::lemma_probe_frame(s3, s4, total, rstart, root_field(), 0, None);
    super::table::lemma_entry_after_splice(s2, s3, p, e.image(), rp);
    assert(entry_bytes(s4, rp) == entry_bytes(s0, rp));
    lemma_entry_at(s4, rp, root);
    assert(root_dir_entry(s4, sb) == Some(root));
    assert(components(n).drop_last() =~= Seq::<Seq<char>>::empty());
    assert(parent_dir(s4, sb, path) == Some(root));
    // The new entry is the first of the root's children named like the file.
    assert(s3[ds] == s0[ds]);
    let b3 = s3[ds]@;
    let b4 = s4[ds]@;
    let ps4 = super::disk::ptrs_of(b4);
    super::dirs::lemma_ptr_written(b3, b4, slot_i, p);
    assert(entry_bytes(s4, p) == entry_bytes(s3, p));
    assert(super::dirs::child_matches(s4, p, x));
    assert forall|j: int| 0 <= j < 56 && j != slot_i && #[trigger] ps4[j].lba != 0
        implies !super::dirs::child_matches(s4, ps4[j], x) by {
        super::dirs::lemma_ptr_others(b3, b4, slot_i, j, p);
        let q = ps4[j];
        assert(q == super::disk::ptrs_of(s0[ds]@)[j]);
        assert(root_child_apart(s0, sb, q, x, p));
        assert(s1[q.lba as int] == s0[q.lba as int]);
        assert(s2[q.lba as int] == s1[q.lba as int]);
        super::table::lemma_entry_after_splice(s2, s3, p, e.image(), q);
        assert(s4[q.lba as int] == s3[q.lba as int]);
        assert(entry_bytes(s4, q) == entry_bytes(s0, q));
    }
    lemma_live_first_match(s4, ps4, slot_i, p, x, 56);
    assert(ps4.subrange(0, 56) =~= ps4);
    reveal_with_fuel(super::links::walk, 2);
    assert(chain(s4, entry_chain(root)) == Some(Seq::<LinkEntry>::empty()));
    assert(listing(s4, root.start_block, Seq::<LinkEntry>::empty()) =~= super::dirs::live_ptrs(ps4));
    assert(super::dirs::first_child(s4, root, x) == Some(p));
    lemma_entry_at(s4, p, e);
    assert(path_file(s4, sb, path) == Some(e));
    // Its contents are the data.
    assert(chain(s4, entry_chain(e)) == Some(Seq::<LinkEntry>::empty()));
    assert forall|i: int| 0 <= i < k implies #[trigger] s4[start + i]@ == chunk(data, 512 * i) by {
        assert(s4[start + i] == s3[start + i]);
        assert(s3[start + i] == s2[start + i]);
    }
    lemma_extent_reads_back(s4, start as int, data);
    assert(chain_data(s4, Seq::<LinkEntry>::empty()) =~= Seq::<u8>::empty());
    assert(extent_data(s4, start as int, data.len() as int) + Seq::<u8>::empty() =~= data);
}

/// The first match is the same in two images that agree on whether each pointer matches.
proof fn lemma_first_match_same(s: Seq<[u8; 512]>, t: Seq<[u8; 512]>, kids: Seq<HashPointer>, name: Seq<u8>)
    requires
        forall|i: int| 0 <= i < kids.len() ==> super::dirs::child_matches(t, #[trigger] kids[i], name)
            == super::dirs::child_matches(s, kids[i], name),
    ensures
        super::dirs::first_match(t, kids, name) == super::dirs::first_match(s, kids, name),
    decreases kids.len(),
{
    if kids.len() > 0 {
        assert(super::dirs::child_matches(t, kids[0], name) == super::dirs::child_matches(s, kids[0], name));
        assert forall|i: int| 0 <= i < kids.drop_first().len() implies super::dirs::child_matches(t, #[trigger] kids.drop_first()[i], name)
            == super::dirs::child_matches(s, kids.drop_first()[i], name) by {
            assert(kids.drop_first()[i] == kids[i + 1]);
        }
        lemma_first_match_same(s, t, kids.drop_first(), name);
    }
}

/// A file at the root rewritten in place reads back: when the image was ready (see
/// [`root_rewrite_ready`]) and went through the steps of rewriting it with `data` (its link
/// chain freed, the data written over its first sectors, the sectors past the data freed, its
/// entry written with the new size in the slot the probe finds), the path names a file whose
/// contents are `data`.
#[verifier::spinoff_prover]
#[verifier::rlimit(80)]
proof fn lemma_rewrite_root_file(s0: Seq<[u8; 512]>, t1: Seq<[u8; 512]>, t2: Seq<[u8; 512]>, t3: Seq<[u8; 512]>,
    t4: Seq<[u8; 512]>, sb: SuperBlock, path: Seq<char>, data: Seq<u8>, name: [u8; FILENAME_LEN],
    root: HashEntry, c: HashPointer, q: HashPointer, start: u64)
    requires
        layout_ok(sb),
        table_ok(sb),
        root_file_ready(s0, sb, path),
        data.len() > 0,
        sb.spec_data_start() < start,
        data.len() <= u64::MAX,
        root_dir_entry(s0, sb) == Some(root),
        super::dirs::first_child(s0, root, encode_utf8(trimmed(path))) == Some(c),
        name@ == crate::fs::hashtable::hash::padded_name(encode_utf8(trimmed(path))),
        super::space::only_bitmap_changed(s0, t1, sb.spec_bitmap_start(), sb.bitmap_size as int),
        t2.len() == t1.len(),
        start + div_ceil(data.len() as int, 512) <= s0.len(),
        forall|l: int| 0 <= l < t1.len() && !(start <= l < start + div_ceil(data.len() as int, 512))
            ==> #[trigger] t2[l] == t1[l],
        forall|i: int| 0 <= i < div_ceil(data.len() as int, 512) ==> #[trigger] t2[start + i]@ == chunk(data, 512 * i),
        super::space::only_bitmap_changed(t2, t3, sb.spec_bitmap_start(), sb.bitmap_size as int),
        probe_name(t3, sb, name@) matches Some(x) && x.0 == q,
        super::table::sector_spliced(t3, t4, q.lba as int, q.offset * 74,
            super::table::used_entry(name, 0, start, data.len() as u64, 0, 0).image()),
    ensures
        path_file(t4, sb, path) matches Some(e) && file_data(t4, e) == Some(data),
{
    let n = trimmed(path);
    let x = encode_utf8(n);
    let bs = sb.spec_bitmap_start();
    let ds = sb.spec_data_start();
    let total = sb.hashmap_size as int;
    let nm = name@;
    let old = entry_at(s0, c);
    let k = div_ceil(data.len() as int, 512);
    lemma_div_ceil_sectors(data.len() as int);
    super::paths::lemma_plain_name(n);
    lemma_not_root_name(n);
    lemma_stored_padded(x);
    let rp0 = probe_name(s0, sb, root_field())->0;
    let rp = rp0.0;
    assert(probe_name(s0, sb, root_field()) == Some((rp, true)));
    let hstart = (name_hash(nm) % sb.hashmap_size) as int;
    let rstart = (name_hash(root_field()) % sb.hashmap_size) as int;
    // The table is as it was until the entry is written.
    assert forall|l: int| 0 <= l < bs implies #[trigger] t3[l] == s0[l] by {
        assert(t1[l] == s0[l]);
        assert(t2[l] == t1[l]);
    }
    lemma_table_same(s0, t3, sb);
    super::table::lemma_probe_frame(s0, t3, total, hstart, nm, 0, None);
    super::table::lemma_probe_frame(s0, t3, total, rstart, root_field(), 0, None);
    assert(q == c);
    super::table::lemma_probe_in_table(s0, total, hstart, nm, 0, None);
    let cs = choose|slot: int| 0 <= slot < total && c == super::table::slot_ptr(slot);
    super::table::lemma_slot_in_table(cs, sb);
    super::table::lemma_probe_found_named(s0, total, hstart, nm, 0, None, c);
    super::table::lemma_probe_in_table(s0, total, rstart, root_field(), 0, None);
    let rs = choose|slot: int| 0 <= slot < total && rp == super::table::slot_ptr(slot);
    super::table::lemma_slot_in_table(rs, sb);
    super::table::lemma_probe_found_named(s0, total, rstart, root_field(), 0, None, rp);
    assert(rp != c);
    // The written entry keeps the status byte and the name of the slot.
    let e = super::table::used_entry(name, 0, start, data.len() as u64, 0, 0);
    super::disk::lemma_entry_fields(e);
    super::table::lemma_entry_after_splice(t3, t4, c, e.image(), c);
    assert forall|slot: int| 0 <= slot < total implies (#[trigger] entry_bytes(t3, super::table::slot_ptr(slot)))[0]
        == entry_bytes(t4, super::table::slot_ptr(slot))[0]
        && entry_bytes(t3, super::table::slot_ptr(slot)).subrange(2, 42) == entry_bytes(t4, super::table::slot_ptr(slot)).subrange(2, 42) by {
        super::table::lemma_slot_in_table(slot, sb);
        super::table::lemma_entry_after_splice(t3, t4, c, e.image(), super::table::slot_ptr(slot));
    }
    super::table::lemma_probe_same_keys(t3, t4, total, rstart, root_field(), 0, None);
    super::table::lemma_entry_after_splice(t3, t4, c, e.image(), rp);
    assert(entry_bytes(t4, rp) == entry_bytes(s0, rp));
    assert(root_dir_entry(t4, sb) == root_dir_entry(s0, sb));
    assert(components(n).drop_last() =~= Seq::<Seq<char>>::empty());
    assert(parent_dir(t4, sb, path) == Some(root));
    // The root's sector is as it was, and each of its children matches as it did.
    assert(t1[ds] == s0[ds]);
    assert(t2[ds] == t1[ds]);
    assert(t4[ds] == t3[ds]);
    reveal_with_fuel(super::links::walk, 2);
    assert(chain(t4, entry_chain(root)) == Some(Seq::<LinkEntry>::empty()));
    assert(chain(s0, entry_chain(root)) == Some(Seq::<LinkEntry>::empty()));
    let ps = super::disk::ptrs_of(s0[ds]@);
    let kids = listing(s0, root.start_block, Seq::<LinkEntry>::empty());
    assert(listing(t4, root.start_block, Seq::<LinkEntry>::empty()) == kids);
    assert forall|i: int| 0 <= i < kids.len() implies super::dirs::child_matches(t4, #[trigger] kids[i], x)
        == super::dirs::child_matches(s0, kids[i], x) by {
        let kq = kids[i];
        lemma_live_in(ps, kq, i);
        if kq.lba < s0.len() {
            assert(t3[kq.lba as int] == s0[kq.lba as int]);
            super::table::lemma_entry_after_splice(t3, t4, c, e.image(), kq);
            if kq != c {
                assert(entry_bytes(t4, kq) == entry_bytes(s0, kq));
            } else {
                assert(entry_bytes(t4, kq)[0] == 1);
                assert(entry_bytes(t4, kq).subrange(2, 42) == nm);
            }
        }
    }
    lemma_first_match_same(s0, t4, kids, x);
    assert(super::dirs::first_child(t4, root, x) == Some(c));
    lemma_entry_at(t4, c, e);
    assert(path_file(t4, sb, path) == Some(e));
    // Its contents are the data.
    assert(chain(t4, entry_chain(e)) == Some(Seq::<LinkEntry>::empty()));
    assert(c.lba < bs);
    assert forall|i: int| 0 <= i < k implies #[trigger] t4[start + i]@ == chunk(data, 512 * i) by {
        assert(bs + sb.bitmap_size <= start + i < t2.len());
        assert(t3[start + i] == t2[start + i]);
        assert(t4[start + i] == t3[start + i]);
    }
    lemma_extent_reads_back(t4, start as int, data);
    assert(chain_data(t4, Seq::<LinkEntry>::empty()) =~= Seq::<u8>::empty());
    assert(extent_data(t4, start as int, data.len() as int) + Seq::<u8>::empty() =~= data);
}

/// A pointer among the live ones of some slots is the pointer of one of those slots.
proof fn lemma_live_in(ps: Seq<HashPointer>, q: HashPointer, i: int)
    requires
        0 <= i < super::dirs::live_ptrs(ps).len(),
        super::dirs::live_ptrs(ps)[i] == q,
    ensures
        exists|j: int| 0 <= j < ps.len() && ps[j] == q && q.lba != 0,
    decreases ps.len(),
{
    let prev = super::dirs::live_ptrs(ps.drop_last());
    if i < prev.len() {
        lemma_live_in(ps.drop_last(), q, i);
        let j = choose|j: int| 0 <= j < ps.drop_last().len() && ps.drop_last()[j] == q && q.lba != 0;
        assert(ps[j] == q);
    } else {
        assert(ps[ps.len() - 1] == q);
    }
}

/// A first match among the live pointers of the first `k` slots is the first match among all.
proof fn lemma_live_prefix_match(sectors: Seq<[u8; 512]>, ps: Seq<HashPointer>, name: Seq<u8>, k: int, q: HashPointer)
    requires
        0 <= k <= ps.len(),
        super::dirs::first_match(sectors, super::dirs::live_ptrs(ps.subrange(0, k)), name) == Some(q),
    ensures
        super::dirs::first_match(sectors, super::dirs::live_ptrs(ps), name) == Some(q),
    decreases ps.len() - k,
{
    if k == ps.len() {
        assert(ps.subrange(0, k) =~= ps);
    } else {
        let prev = super::dirs::live_ptrs(ps.subrange(0, k));
        let a = ps.subrange(0, k + 1);
        assert(a.drop_last() =~= ps.subrange(0, k));
        let z = ps[k];
        if z.lba != 0 {
            assert(prev + seq![z] =~= prev.push(z));
            lemma_first_match_push(sectors, prev, z, name);
        } else {
            assert(prev + Seq::<HashPointer>::empty() =~= prev);
        }
        lemma_live_prefix_match(sectors, ps, name, k + 1, q);
    }
}

/// Putting `c` in the free slot `i` keeps `c` the first match when it was the first match
/// before: over the first `k` slots the match is `c` once the slots reach `i` or held a match.
proof fn lemma_live_insert_match(sectors: Seq<[u8; 512]>, ps: Seq<HashPointer>, i: int, c: HashPointer, name: Seq<u8>, k: int)
    requires
        0 <= i < ps.len(),
        0 <= k <= ps.len(),
        ps[i].lba == 0,
        c.lba != 0,
        super::dirs::child_matches(sectors, c, name),
        super::dirs::first_match(sectors, super::dirs::live_ptrs(ps), name) == Some(c),
    ensures
        super::dirs::first_match(sectors, super::dirs::live_ptrs(ps.update(i, c).subrange(0, k)), name)
            == (if super::dirs::first_match(sectors, super::dirs::live_ptrs(ps.subrange(0, k)), name) is Some || k > i {
                Some(c) } else { None::<HashPointer> }),
    decreases k,
{
    let ps2 = ps.update(i, c);
    if k == 0 {
        assert(ps.subrange(0, 0) =~= Seq::<HashPointer>::empty());
        assert(ps2.subrange(0, 0) =~= Seq::<HashPointer>::empty());
    } else {
        lemma_live_insert_match(sectors, ps, i, c, name, k - 1);
        let prev = super::dirs::live_ptrs(ps.subrange(0, k - 1));
        let prev2 = super::dirs::live_ptrs(ps2.subrange(0, k - 1));
        assert(ps.subrange(0, k).drop_last() =~= ps.subrange(0, k - 1));
        assert(ps2.subrange(0, k).drop_last() =~= ps2.subrange(0, k - 1));
        let z = ps[k - 1];
        let z2 = ps2[k - 1];
        if z2.lba != 0 {
            assert(prev2 + seq![z2] =~= prev2.push(z2));
            lemma_first_match_push(sectors, prev2, z2, name);
        } else {
            assert(prev2 + Seq::<HashPointer>::empty() =~= prev2);
        }
        if z.lba != 0 {
            assert(prev + seq![z] =~= prev.push(z));
            lemma_first_match_push(sectors, prev, z, name);
            if super::dirs::first_match(sectors, super::dirs::live_ptrs(ps.subrange(0, k)), name) is Some {
                let q = super::dirs::first_match(sectors, super::dirs::live_ptrs(ps.subrange(0, k)), name)->0;
                lemma_live_prefix_match(sectors, ps, name, k, q);
            }
        } else {
            assert(prev + Seq::<HashPointer>::empty() =~= prev);
        }
    }
}

/// A file at the root rewritten through a fresh run reads back: when the image was ready (see
/// [`root_rewrite_ready`]) and went through the steps of writing `data` as if the file were new
/// (a run allocated past the root's sector, the data written there, the entry the probe finds
/// written with the run, that entry found, and its pointer put in a free slot of the root's
/// sector), the path names a file whose contents are `data`.
#[verifier::spinoff_prover]
#[verifier::rlimit(80)]
proof fn lemma_rewrite_root_fresh(s0: Seq<[u8; 512]>, s1: Seq<[u8; 512]>, s2: Seq<[u8; 512]>, s3: Seq<[u8; 512]>,
    s4: Seq<[u8; 512]>, sb: SuperBlock, path: Seq<char>, data: Seq<u8>, name: [u8; FILENAME_LEN], st: int,
    start: u64, p: HashPointer, c: HashPointer, slot_i: int, root: HashEntry)
    requires
        layout_ok(sb),
        table_ok(sb),
        root_file_ready(s0, sb, path),
        root_dir_entry(s0, sb) == Some(root),
        data.len() > 0,
        data.len() <= u64::MAX,
        name@ == crate::fs::hashtable::hash::padded_name(encode_utf8(trimmed(path))),
        super::space::only_bitmap_changed(s0, s1, sb.spec_bitmap_start(), sb.bitmap_size as int),
        super::space::alloc_search(s0, sb.spec_bitmap_start(), sb.bitmap_size as int, sb.total_blocks - sb.spec_data_start(),
            div_ceil(data.len() as int, 512), 0) == Some(st),
        start == sb.spec_data_start() + st,
        s2.len() == s1.len(),
        forall|l: int| 0 <= l < s1.len() && !(start <= l < start + div_ceil(data.len() as int, 512))
            ==> #[trigger] s2[l] == s1[l],
        forall|i: int| 0 <= i < div_ceil(data.len() as int, 512) ==> #[trigger] s2[start + i]@ == chunk(data, 512 * i),
        start + div_ceil(data.len() as int, 512) <= s1.len(),
        probe_name(s2, sb, name@) matches Some(x) && x.0 == p,
        p.offset < 6,
        super::table::sector_spliced(s2, s3, p.lba as int, p.offset * 74,
            super::table::used_entry(name, 0, start, data.len() as u64, 0, 0).image()),
        probe_name(s3, sb, name@) == Some((c, true)),
        0 <= slot_i < 56,
        super::disk::ptrs_of(s3[sb.spec_data_start()]@)[slot_i].lba == 0,
        super::table::sector_spliced(s3, s4, sb.spec_data_start(), slot_i * 9, c.image()),
    ensures
        path_file(s4, sb, path) matches Some(e) && file_data(s4, e) == Some(data),
{
    let n = trimmed(path);
    let x = encode_utf8(n);
    let bs = sb.spec_bitmap_start();
    let ds = sb.spec_data_start();
    let total = sb.hashmap_size as int;
    let nm = name@;
    let k = div_ceil(data.len() as int, 512);
    let c0 = super::dirs::first_child(s0, root, x)->0;
    let hstart = (name_hash(nm) % sb.hashmap_size) as int;
    let rstart = (name_hash(root_field()) % sb.hashmap_size) as int;
    super::paths::lemma_plain_name(n);
    lemma_not_root_name(n);
    lemma_stored_padded(x);
    lemma_div_ceil_sectors(data.len() as int);
    let rp0 = probe_name(s0, sb, root_field())->0;
    let rp = rp0.0;
    assert(probe_name(s0, sb, root_field()) == Some((rp, true)));
    // The run starts past the root's sector.
    super::space::lemma_alloc_skips_first(s0, bs, sb.bitmap_size as int, sb.total_blocks - ds, k, 0);
    assert(st >= 1);
    // The table is as it was until the entry is written.
    lemma_table_same(s0, s2, sb);
    super::table::lemma_probe_frame(s0, s2, total, hstart, nm, 0, None);
    super::table::lemma_probe_frame(s0, s2, total, rstart, root_field(), 0, None);
    assert(p == c0);
    super::table::lemma_probe_in_table(s0, total, hstart, nm, 0, None);
    let cs = choose|slot: int| 0 <= slot < total && c0 == super::table::slot_ptr(slot);
    super::table::lemma_slot_in_table(cs, sb);
    super::table::lemma_probe_found_named(s0, total, hstart, nm, 0, None, c0);
    super::table::lemma_probe_in_table(s0, total, rstart, root_field(), 0, None);
    let rs = choose|slot: int| 0 <= slot < total && rp == super::table::slot_ptr(slot);
    super::table::lemma_slot_in_table(rs, sb);
    super::table::lemma_probe_found_named(s0, total, rstart, root_field(), 0, None, rp);
    assert(rp != c0);
    // The written entry keeps the status byte and the name of its slot.
    let e = super::table::used_entry(name, 0, start, data.len() as u64, 0, 0);
    super::disk::lemma_entry_fields(e);
    super::table::lemma_entry_after_splice(s2, s3, c0, e.image(), c0);
    assert forall|slot: int| 0 <= slot < total implies (#[trigger] entry_bytes(s2, super::table::slot_ptr(slot)))[0]
        == entry_bytes(s3, super::table::slot_ptr(slot))[0]
        && entry_bytes(s2, super::table::slot_ptr(slot)).subrange(2, 42) == entry_bytes(s3, super::table::slot_ptr(slot)).subrange(2, 42) by {
        super::table::lemma_slot_in_table(slot, sb);
        super::table::lemma_entry_after_splice(s2, s3, c0, e.image(), super::table::slot_ptr(slot));
    }
    super::table::lemma_probe_same_keys(s2, s3, total, hstart, nm, 0, None);
    assert(c == c0);
    super::table::lemma_probe_same_keys(s2, s3, total, rstart, root_field(), 0, None);
    super::table::lemma_entry_after_splice(s2, s3, c0, e.image(), rp);
    // The root's sector is the last to change, and only in the slot taken.
    lemma_table_same(s3, s4, sb);
    super::table::lemma_probe_frame(s3, s4, total, rstart, root_field(), 0, None);
    assert(entry_bytes(s4, rp) == entry_bytes(s0, rp));
    assert(root_dir_entry(s4, sb) == root_dir_entry(s0, sb));
    assert(components(n).drop_last() =~= Seq::<Seq<char>>::empty());
    assert(parent_dir(s4, sb, path) == Some(root));
    assert(s1[ds] == s0[ds]);
    assert(s2[ds] == s1[ds]);
    assert(s3[ds] == s2[ds]);
    let ps3 = super::disk::ptrs_of(s3[ds]@);
    let ps4 = super::disk::ptrs_of(s4[ds]@);
    super::dirs::lemma_ptr_written(s3[ds]@, s4[ds]@, slot_i, c0);
    assert forall|j: int| 0 <= j < 56 implies #[trigger] ps4[j] == ps3.update(slot_i, c0)[j] by {
        if j != slot_i {
            super::dirs::lemma_ptr_others(s3[ds]@, s4[ds]@, slot_i, j, c0);
        }
    }
    assert(ps4 =~= ps3.update(slot_i, c0));
    // Each child matches as it did.
    reveal_with_fuel(super::links::walk, 2);
    assert(chain(s0, entry_chain(root)) == Some(Seq::<LinkEntry>::empty()));
    assert(chain(s4, entry_chain(root)) == Some(Seq::<LinkEntry>::empty()));
    let kids = listing(s0, root.start_block, Seq::<LinkEntry>::empty());
    assert(kids =~= super::dirs::live_ptrs(ps3));
    assert(entry_bytes(s4, c0) == entry_bytes(s3, c0));
    assert forall|i: int| 0 <= i < kids.len() implies super::dirs::child_matches(s4, #[trigger] kids[i], x)
        == super::dirs::child_matches(s0, kids[i], x) by {
        let kq = kids[i];
        lemma_live_in(ps3, kq, i);
        assert(kq.lba < bs);
        assert(s4[kq.lba as int] == s3[kq.lba as int]);
        super::table::lemma_entry_after_splice(s2, s3, c0, e.image(), kq);
        if kq != c0 {
            assert(s2[kq.lba as int] == s0[kq.lba as int]);
            assert(entry_bytes(s4, kq) == entry_bytes(s0, kq));
        }
    }
    lemma_first_match_same(s0, s4, kids, x);
    assert(super::dirs::child_matches(s4, c0, x));
    lemma_live_insert_match(s4, ps3, slot_i, c0, x, 56);
    assert(ps3.subrange(0, 56) =~= ps3);
    assert(ps3.update(slot_i, c0).subrange(0, 56) =~= ps3.update(slot_i, c0));
    assert(listing(s4, root.start_block, Seq::<LinkEntry>::empty()) =~= super::dirs::live_ptrs(ps4));
    assert(super::dirs::first_child(s4, root, x) == Some(c0));
    lemma_entry_at(s4, c0, e);
    assert(path_file(s4, sb, path) == Some(e));
    // Its contents are the data.
    assert(chain(s4, entry_chain(e)) == Some(Seq::<LinkEntry>::empty()));
    assert forall|i: int| 0 <= i < k implies #[trigger] s4[start + i]@ == chunk(data, 512 * i) by {
        assert(s3[start + i] == s2[start + i]);
        assert(s4[start + i] == s3[start + i]);
    }
    lemma_extent_reads_back(s4, start as int, data);
    assert(chain_data(s4, Seq::<LinkEntry>::empty()) =~= Seq::<u8>::empty());
    assert(extent_data(s4, start as int, data.len() as int) + Seq::<u8>::empty() =~= data);
}

/// A single name: not empty and without `/`.
pub open spec fn plain_name(n: Seq<char>) -> bool {
    n.len() > 0 && forall|k: int| 0 <= k < n.len() ==> n[k] != '/'
}

/// What the lookup of a name about to be written says of the entry already there: a directory
/// is `IsADirectory`, a file is its entry, and a lookup that failed (the name is not in the
/// table, or the drive did not answer) means there is no file yet.
pub fn existing_file(lookup: Result<(HashPointer, HashEntry), ImageError>) -> (r: Result<Option<HashEntry>, ImageError>)
    ensures
        match lookup {
            Ok((_p, e)) => if e.type_ == 1 {
                r == Err::<Option<HashEntry>, ImageError>(ImageError::IsADirectory)
            } else {
                r == Ok::<Option<HashEntry>, ImageError>(Some(e))
            },
            Err(_) => r == Ok::<Option<HashEntry>, ImageError>(None),
        },
{
    match lookup {
        Ok((_p, e)) => {
            if e.type_ == 1 {
                Err(ImageError::IsADirectory)
            } else {
                Ok(Some(e))
            }
        }
        Err(_) => Ok(None),
    }
}

/// The first match is `z` when `z` is among `kids`, matches, and is the only pointer that does.
proof fn lemma_first_match_only(t: Seq<[u8; 512]>, kids: Seq<HashPointer>, name: Seq<u8>, z: HashPointer, i: int)
    requires
        0 <= i < kids.len(),
        kids[i] == z,
        super::dirs::child_matches(t, z, name),
        forall|j: int| 0 <= j < kids.len() && super::dirs::child_matches(t, #[trigger] kids[j], name) ==> kids[j] == z,
    ensures
        super::dirs::first_match(t, kids, name) == Some(z),
    decreases kids.len(),
{
    if !super::dirs::child_matches(t, kids[0], name) {
        assert(i > 0);
        assert forall|j: int| 0 <= j < kids.drop_first().len() && super::dirs::child_matches(t, #[trigger] kids.drop_first()[j], name)
            implies kids.drop_first()[j] == z by {
            assert(kids.drop_first()[j] == kids[j + 1]);
        }
        lemma_first_match_only(t, kids.drop_first(), name, z, i - 1);
    }
}

/// No pointer of `kids` matches, so there is no first match.
proof fn lemma_first_match_none(t: Seq<[u8; 512]>, kids: Seq<HashPointer>, name: Seq<u8>)
    requires
        forall|j: int| 0 <= j < kids.len() ==> !super::dirs::child_matches(t, #[trigger] kids[j], name),
    ensures
        super::dirs::first_match(t, kids, name) is None,
    decreases kids.len(),
{
    if kids.len() > 0 {
        assert(!super::dirs::child_matches(t, kids[0], name));
        assert forall|j: int| 0 <= j < kids.drop_first().len() implies !super::dirs::child_matches(t, #[trigger] kids.drop_first()[j], name) by {
            assert(kids.drop_first()[j] == kids[j + 1]);
        }
        lemma_first_match_none(t, kids.drop_first(), name);
    }
}

/// The first match is one of `kids`, and matches.
proof fn lemma_first_match_found(t: Seq<[u8; 512]>, kids: Seq<HashPointer>, name: Seq<u8>)
    ensures
        super::dirs::first_match(t, kids, name) matches Some(z) ==> super::dirs::child_matches(t, z, name)
            && exists|i: int| 0 <= i < kids.len() && kids[i] == z,
    decreases kids.len(),
{
    if kids.len() > 0 && !super::dirs::child_matches(t, kids[0], name) {
        lemma_first_match_found(t, kids.drop_first(), name);
        if let Some(z) = super::dirs::first_match(t, kids, name) {
            let i = choose|i: int| 0 <= i < kids.drop_first().len() && kids.drop_first()[i] == z;
            assert(kids[i + 1] == z);
        }
    }
}

/// A slot holding a pointer puts it among the live pointers.
proof fn lemma_live_contains(ps: Seq<HashPointer>, j: int)
    requires
        0 <= j < ps.len(),
        ps[j].lba != 0,
    ensures
        exists|i: int| 0 <= i < super::dirs::live_ptrs(ps).len() && super::dirs::live_ptrs(ps)[i] == ps[j],
    decreases ps.len(),
{
    let prev = super::dirs::live_ptrs(ps.drop_last());
    if j == ps.len() - 1 {
        assert(super::dirs::live_ptrs(ps)[prev.len() as int] == ps[j]);
    } else {
        lemma_live_contains(ps.drop_last(), j);
        let i = choose|i: int| 0 <= i < prev.len() && prev[i] == ps.drop_last()[j];
        assert(super::dirs::live_ptrs(ps)[i] == ps[j]);
    }
}

/// Marking the slot `p` a tombstone changes its status byte and no other entry.
proof fn lemma_entry_after_mark(s: Seq<[u8; 512]>, u: Seq<[u8; 512]>, p: HashPointer, q: HashPointer)
    requires
        super::table::sector_spliced(s, u, p.lba as int, p.offset * 74, seq![0xFFu8]),
        p.offset < 6,
        q.offset < 6,
        q.lba < s.len(),
    ensures
        q == p ==> entry_bytes(u, q) == entry_bytes(s, q).update(0, 0xFFu8),
        q != p ==> entry_bytes(u, q) == entry_bytes(s, q),
{
    let b = s[p.lba as int]@;
    assert(b.len() == 512);
    if q.lba == p.lba {
        assert(u[p.lba as int]@ == super::disk::splice(b, p.offset * 74, seq![0xFFu8]));
        if q == p {
            assert(entry_bytes(u, q) =~= entry_bytes(s, q).update(0, 0xFFu8));
        } else {
            assert(q.offset != p.offset);
            assert(entry_bytes(u, q) =~= entry_bytes(s, q));
        }
    }
}

/// A file moved to a new name at the root is found there, with its contents, and no longer
/// under its old name: when the image was ready (see [`root_move_ready`]) and went through the
/// steps of the move (the source's pointer cleared from the first slot of the root's sector
/// that holds it, its entry marked a tombstone, the entry written under the new name in the
/// first free slot of the new name's probe, and that slot's pointer put in a free slot of the
/// root's sector).
#[verifier::spinoff_prover]
#[verifier::rlimit(100)]
proof fn lemma_move_root_file(s0: Seq<[u8; 512]>, t1: Seq<[u8; 512]>, t2: Seq<[u8; 512]>, t3: Seq<[u8; 512]>,
    t4: Seq<[u8; 512]>, sb: SuperBlock, src: Seq<char>, dest: Seq<char>, root: HashEntry, rp: HashPointer,
    sp: HashPointer, esp: HashEntry, k: int, np: HashPointer, nb: [u8; FILENAME_LEN], moved: HashEntry, j: int)
    requires
        layout_ok(sb),
        table_ok(sb),
        root_move_ready(s0, sb, src, dest),
        probe_name(s0, sb, root_field()) == Some((rp, true)),
        root.image() == entry_bytes(s0, rp),
        super::dirs::first_child(s0, root, encode_utf8(trimmed(src))) == Some(sp),
        esp.image() == entry_bytes(s0, sp),
        0 <= k < 56,
        super::disk::ptrs_of(s0[sb.spec_data_start()]@)[k] == sp,
        super::table::sector_spliced(s0, t1, sb.spec_data_start(), k * 9, super::dirs::null_ptr().image()),
        super::table::sector_spliced(t1, t2, sp.lba as int, sp.offset * 74, seq![0xFFu8]),
        super::table::probe_free(t2, sb.hashmap_size as int, (name_hash(nb@) % sb.hashmap_size) as int, 0) == Some(np),
        nb@ == crate::fs::hashtable::hash::padded_name(encode_utf8(trimmed(dest))),
        moved == (HashEntry { status: 1, name: nb, ..esp }),
        super::table::sector_spliced(t2, t3, np.lba as int, np.offset * 74, moved.image()),
        0 <= j < 56,
        super::disk::ptrs_of(t3[sb.spec_data_start()]@)[j].lba == 0,
        super::table::sector_spliced(t3, t4, sb.spec_data_start(), j * 9, np.image()),
    ensures
        path_file(t4, sb, dest) == Some(moved),
        file_data(t4, moved) == file_data(s0, esp),
        path_file(t4, sb, src) is None,
{
    broadcast use vstd::utf8::encode_utf8_decode_utf8;
    let a = trimmed(src);
    let b = trimmed(dest);
    let xa = encode_utf8(a);
    let xb = encode_utf8(b);
    let ds = sb.spec_data_start();
    let bs = sb.spec_bitmap_start();
    let total = sb.hashmap_size as int;
    let rstart = (name_hash(root_field()) % sb.hashmap_size) as int;
    let ps0 = super::disk::ptrs_of(s0[ds]@);
    super::paths::lemma_plain_name(a);
    super::paths::lemma_plain_name(b);
    assert(xa != xb) by {
        if xa == xb {
            assert(vstd::utf8::decode_utf8(xa) == a);
            assert(vstd::utf8::decode_utf8(xb) == b);
        }
    }
    lemma_stored_padded(xa);
    lemma_stored_padded(xb);
    lemma_not_root_name(a);
    lemma_not_root_name(b);
    lemma_entry_at(s0, rp, root);
    lemma_entry_at(s0, sp, esp);
    super::disk::lemma_entry_fields(root);
    super::disk::lemma_entry_fields(esp);
    super::disk::lemma_entry_fields(moved);
    // The source is a listed pointer to a used entry of the table, apart from the root's.
    reveal_with_fuel(super::links::walk, 2);
    assert(chain(s0, entry_chain(root)) == Some(Seq::<LinkEntry>::empty()));
    let kids0 = super::dirs::live_ptrs(ps0);
    assert(listing(s0, root.start_block, Seq::<LinkEntry>::empty()) =~= kids0);
    lemma_first_match_found(s0, kids0, xa);
    let si = choose|i: int| 0 <= i < kids0.len() && kids0[i] == sp;
    lemma_live_in(ps0, sp, si);
    assert(sp.lba < bs && sp.offset < 6 && sp.lba != 0);
    assert(entry_bytes(s0, sp)[1] == 0);
    assert(entry_bytes(s0, rp)[1] == 1);
    assert(sp != rp);
    super::table::lemma_probe_found_named(s0, total, rstart, root_field(), 0, None, rp);
    super::table::lemma_probe_in_table(s0, total, rstart, root_field(), 0, None);
    let rs = choose|slot: int| 0 <= slot < total && rp == super::table::slot_ptr(slot);
    super::table::lemma_slot_in_table(rs, sb);
    // The source's name field is not the root's.
    let fsp = entry_bytes(s0, sp).subrange(2, 42);
    assert(fsp != root_field()) by {
        if fsp == root_field() {
            lemma_stored_padded(seq![47u8]);
            assert(crate::fs::hashtable::hash::padded_name(seq![47u8]) =~= root_field());
            assert(xa == seq![47u8]);
            assert(crate::fs::hashtable::hash::padded_name(xa) =~= root_field());
        }
    }
    // The table through the steps.
    lemma_table_same(s0, t1, sb);
    super::table::lemma_probe_frame(s0, t1, total, rstart, root_field(), 0, None);
    assert forall|slot: int| 0 <= slot < total && super::table::slot_ptr(slot) != sp
        implies #[trigger] entry_bytes(t2, super::table::slot_ptr(slot)) == entry_bytes(t1, super::table::slot_ptr(slot)) by {
        super::table::lemma_slot_in_table(slot, sb);
        lemma_entry_after_mark(t1, t2, sp, super::table::slot_ptr(slot));
    }
    assert(t1[sp.lba as int] == s0[sp.lba as int]);
    lemma_entry_after_mark(t1, t2, sp, sp);
    super::table::lemma_probe_keeps_found_past(t1, t2, total, rstart, root_field(), 0, None, None, sp, rp);
    super::table::lemma_probe_free_slot(t2, total, (name_hash(nb@) % sb.hashmap_size) as int, 0);
    let ns = choose|slot: int| 0 <= slot < total && np == super::table::slot_ptr(slot);
    super::table::lemma_slot_in_table(ns, sb);
    super::table::lemma_entry_after_splice(t2, t3, np, moved.image(), np);
    assert forall|slot: int| 0 <= slot < total && super::table::slot_ptr(slot) != np
        implies #[trigger] entry_bytes(t3, super::table::slot_ptr(slot)) == entry_bytes(t2, super::table::slot_ptr(slot)) by {
        super::table::lemma_slot_in_table(slot, sb);
        super::table::lemma_entry_after_splice(t2, t3, np, moved.image(), super::table::slot_ptr(slot));
    }
    lemma_entry_after_mark(t1, t2, sp, rp);
    assert(entry_bytes(t2, rp)[0] == 1);
    assert(np != rp);
    super::table::lemma_probe_keeps_found(t2, t3, total, rstart, root_field(), 0, None, None, np, rp);
    lemma_table_same(t3, t4, sb);
    super::table::lemma_probe_frame(t3, t4, total, rstart, root_field(), 0, None);
    super::table::lemma_entry_after_splice(t2, t3, np, moved.image(), rp);
    assert(entry_bytes(t4, rp) == entry_bytes(s0, rp));
    lemma_entry_at(t4, rp, root);
    assert(root_dir_entry(t4, sb) == Some(root));
    assert(components(a).drop_last() =~= Seq::<Seq<char>>::empty());
    assert(components(b).drop_last() =~= Seq::<Seq<char>>::empty());
    assert(parent_dir(t4, sb, src) == Some(root));
    assert(parent_dir(t4, sb, dest) == Some(root));
    // The moved entry, under its new name.
    assert(entry_bytes(t4, np) == moved.image());
    lemma_entry_at(t4, np, moved);
    assert(super::dirs::child_matches(t4, np, xb));
    // The root's sector: the source's slot emptied, the new pointer put in.
    let ps1 = super::disk::ptrs_of(t1[ds]@);
    let ps4 = super::disk::ptrs_of(t4[ds]@);
    super::dirs::lemma_ptr_written(s0[ds]@, t1[ds]@, k, super::dirs::null_ptr());
    assert forall|i: int| 0 <= i < 56 implies #[trigger] ps1[i] == ps0.update(k, super::dirs::null_ptr())[i] by {
        if i != k {
            super::dirs::lemma_ptr_others(s0[ds]@, t1[ds]@, k, i, super::dirs::null_ptr());
        }
    }
    assert(t2[ds] == t1[ds]);
    assert(t3[ds] == t2[ds]);
    super::dirs::lemma_ptr_written(t3[ds]@, t4[ds]@, j, np);
    assert forall|i: int| 0 <= i < 56 implies #[trigger] ps4[i] == ps1.update(j, np)[i] by {
        if i != j {
            super::dirs::lemma_ptr_others(t3[ds]@, t4[ds]@, j, i, np);
        }
    }
    assert(chain(t4, entry_chain(root)) == Some(Seq::<LinkEntry>::empty()));
    let kids4 = super::dirs::live_ptrs(ps4);
    assert(listing(t4, root.start_block, Seq::<LinkEntry>::empty()) =~= kids4);
    // Each live pointer but the new one is one the root listed, and matches neither name.
    assert forall|i: int| 0 <= i < kids4.len() && kids4[i] != np
        implies !super::dirs::child_matches(t4, #[trigger] kids4[i], xb) && !super::dirs::child_matches(t4, kids4[i], xa) by {
        let q = kids4[i];
        lemma_live_in(ps4, q, i);
        let jj = choose|jj: int| 0 <= jj < ps4.len() && ps4[jj] == q && q.lba != 0;
        assert(jj != j);
        assert(jj != k);
        assert(q == ps0[jj]);
        assert(q.lba < bs && q.offset < 6);
        assert(t4[q.lba as int] == t3[q.lba as int]);
        super::table::lemma_entry_after_splice(t2, t3, np, moved.image(), q);
        lemma_entry_after_mark(t1, t2, sp, q);
        assert(t1[q.lba as int] == s0[q.lba as int]);
        if q != sp {
            assert(entry_bytes(t4, q) == entry_bytes(s0, q));
            assert(!super::dirs::child_matches(s0, ps0[jj], xb));
            assert(!super::dirs::child_matches(s0, ps0[jj], xa));
        } else {
            assert(entry_bytes(t4, q)[0] == 0xFFu8);
        }
    }
    lemma_live_contains(ps4, j);
    let ji = choose|i: int| 0 <= i < kids4.len() && kids4[i] == ps4[j];
    lemma_first_match_only(t4, kids4, xb, np, ji);
    assert(super::dirs::first_child(t4, root, xb) == Some(np));
    assert(!super::dirs::child_matches(t4, np, xa));
    lemma_first_match_none(t4, kids4, xa);
    assert(path_file(t4, sb, dest) == Some(moved));
    assert(path_file(t4, sb, src) is None);
    // The contents are where they were.
    assert(chain(t4, entry_chain(moved)) == Some(Seq::<LinkEntry>::empty()));
    assert(chain(s0, entry_chain(esp)) == Some(Seq::<LinkEntry>::empty()));
    lemma_div_ceil_sectors(esp.file_size as int);
    assert forall|l: int| ds < l < s0.len() implies #[trigger] t4[l] == s0[l] by {
        assert(t1[l] == s0[l]);
        assert(t2[l] == t1[l]);
        assert(t3[l] == t2[l]);
    }
    assert(extent_data(t4, esp.start_block as int, esp.file_size as int) =~= extent_data(s0, esp.start_block as int, esp.file_size as int)) by {
        assert forall|x: int| 0 <= x < esp.file_size implies
            #[trigger] t4[esp.start_block + x / 512] == s0[esp.start_block + x / 512] by {
            assert(x / 512 < div_ceil(esp.file_size as int, 512)) by (nonlinear_arith)
                requires 0 <= x < esp.file_size, div_ceil(esp.file_size as int, 512) == (esp.file_size + 511) / 512;
        }
    }
}

/// Eight zero bytes hold the number zero.
proof fn lemma_zero_u64(b: Seq<u8>, off: int)
    requires
        0 <= off,
        off + 8 <= b.len(),
        forall|k: int| off <= k < off + 8 ==> b[k] == 0,
    ensures
        super::disk::u64_at(b, off) == 0,
{
    vstd::bytes::lemma_auto_spec_u64_to_from_le_bytes();
    vstd::bytes::spec_u64_to_le_bytes_to_open(0u64);
    assert((0u64 & 0xff) as u8 == 0u8 && ((0u64 >> 8u64) & 0xff) as u8 == 0u8 && ((0u64 >> 16u64) & 0xff) as u8 == 0u8
        && ((0u64 >> 24u64) & 0xff) as u8 == 0u8 && ((0u64 >> 32u64) & 0xff) as u8 == 0u8 && ((0u64 >> 40u64) & 0xff) as u8 == 0u8
        && ((0u64 >> 48u64) & 0xff) as u8 == 0u8 && ((0u64 >> 56u64) & 0xff) as u8 == 0u8) by (bit_vector);
    assert(b.subrange(off, off + 8) =~= vstd::bytes::spec_u64_to_le_bytes(0u64));
}

/// A freshly formatted image takes a first file at its root (see [`root_write_ready`]), under
/// any single name without `/` whose encoding has no zero byte and fits a name field: writing
/// such a file there and reading it back gives its data (see [`Self::write_file`] and
/// [`Self::read_file`]).
pub proof fn lemma_formatted_ready(old: Seq<[u8; 512]>, new: Seq<[u8; 512]>, sb: SuperBlock, path: Seq<char>)
    requires
        formatted(old, new, sb),
        fresh_superblock(sb, old.len() as int),
        layout_ok(sb),
        table_ok(sb),
        trimmed(path).len() > 0,
        forall|k: int| 0 <= k < trimmed(path).len() ==> trimmed(path)[k] != '/',
        encode_utf8(trimmed(path)).len() <= FILENAME_LEN,
        forall|k: int| 0 <= k < encode_utf8(trimmed(path)).len() ==> encode_utf8(trimmed(path))[k] != 0,
    ensures
        root_write_ready(new, sb, path),
{
    let n = trimmed(path);
    let x = encode_utf8(n);
    let nm = crate::fs::hashtable::hash::padded_name(x);
    let bs = sb.spec_bitmap_start();
    let ds = sb.spec_data_start();
    let total = sb.hashmap_size as int;
    let r = root_slot(total);
    let hl = 1 + r / 6;
    let rp = super::table::slot_ptr(r);
    assert(total >= 4096);
    assert(0 <= r < total);
    super::table::lemma_slot_in_table(r, sb);
    lemma_not_root_name(n);
    // The root's entry is found in its slot.
    let img = root_entry_image(ds as u64);
    vstd::bytes::lemma_auto_spec_u64_to_from_le_bytes();
    assert(img.len() == 74);
    assert(entry_bytes(new, rp) =~= img);
    assert(img.subrange(2, 42) =~= root_field());
    vstd::arithmetic::div_mod::lemma_small_mod(r as nat, total as nat);
    assert((r + 0) % total == r);
    assert(probe_name(new, sb, root_field()) == Some((rp, true)));
    let z: [u8; FILENAME_LEN] = vstd::array::spec_array_fill_for_copy_type(0u8);
    vstd::array::axiom_spec_array_fill_for_copy_type::<u8, FILENAME_LEN>(0u8);
    let a: [u8; FILENAME_LEN] = vstd::array::spec_array_update(z, 0, 47u8);
    vstd::array::axiom_spec_array_update(z, 0, 47u8);
    assert(a@ =~= root_field());
    let re = HashEntry { status: 1, type_: 1, name: a, start_block: ds as u64, file_size: 0, link_ptr: 0, link_size: 0 };
    assert(re.image() =~= img);
    lemma_entry_at(new, rp, re);
    assert(root_dir_entry(new, sb) == Some(re));
    // The root's sector is empty.
    assert(new[ds]@ == super::disk::zero_sector());
    assert forall|i: int| 0 <= i < 56 implies #[trigger] super::disk::ptrs_of(new[ds]@)[i].lba == 0 by {
        lemma_zero_u64(new[ds]@, i * 9);
    }
    assert(super::disk::ptrs_of(new[ds]@)[0].lba == 0);
    // The root's sector is marked used.
    assert(new[bs]@[0] == 1u8);
    assert(crate::fs::lemonfs::disk::byte_bit(1u8, 0)) by (bit_vector);
    assert(super::space::sector_bits(new[bs]@)[0]);
    // Probing for the name meets at most the root's entry before an unused slot.
    let h = (name_hash(nm) % sb.hashmap_size) as int;
    assert(0 <= h < total);
    let s0 = (h + 0) % total;
    let s1 = (h + 1) % total;
    vstd::arithmetic::div_mod::lemma_small_mod(h as nat, total as nat);
    assert(s0 == h);
    if h + 1 < total {
        vstd::arithmetic::div_mod::lemma_small_mod((h + 1) as nat, total as nat);
    } else {
        vstd::arithmetic::div_mod::lemma_mod_self_0(total);
    }
    assert(s1 != h);
    assert(0 <= s1 < total) by {
        vstd::arithmetic::div_mod::lemma_mod_bound(h + 1, total);
    }
    assert forall|slot: int| 0 <= slot < total && slot != r implies #[trigger] entry_bytes(new, super::table::slot_ptr(slot))[0] == 0 by {
        super::table::lemma_slot_in_table(slot, sb);
        let q = super::table::slot_ptr(slot);
        if q.lba == hl {
            assert(q.offset != rp.offset) by {
                vstd::arithmetic::div_mod::lemma_fundamental_div_mod(slot, 6);
                vstd::arithmetic::div_mod::lemma_fundamental_div_mod(r, 6);
            }
            assert(new[hl]@[q.offset * 74] == 0);
        } else {
            assert(new[q.lba as int]@ == super::disk::zero_sector());
        }
    }
    if h == r {
        assert(entry_bytes(new, rp).subrange(2, 42) != nm);
        assert(0 <= s1 < total && s1 != r);
        assert(entry_bytes(new, super::table::slot_ptr(s1))[0] == 0);
        assert(super::table::probe_hash(new, total, h, nm, 1, None) == Some((super::table::slot_ptr(s1), false)));
        assert(probe_name(new, sb, nm) == Some((super::table::slot_ptr(s1), false)));
    } else {
        assert(probe_name(new, sb, nm) == Some((super::table::slot_ptr(h), false)));
    }
}

/// The contents of the file `e`: the bytes of its first extent, then those of the extents of
/// its link chain; none when the chain does not read.
pub open spec fn file_data(s: Seq<[u8; 512]>, e: HashEntry) -> Option<Seq<u8>> {
    match chain(s, entry_chain(e)) {
        Some(v) => Some(extent_data(s, e.start_block as int, e.file_size as int) + chain_data(s, v)),
        None => None,
    }
}

/// The sector that holds the 512 bytes of `d` from `off` on, padded with zeros.
pub open spec fn chunk(d: Seq<u8>, off: int) -> Seq<u8> {
    Seq::new(512, |k: int| if off + k < d.len() { d[off + k] } else { 0u8 })
}

/// Reading back an extent that was written gives the data: when the sectors from `start` hold
/// the chunks of `data`, one sector per 512 bytes, the extent of `data.len()` bytes from `start`
/// is `data`.
pub proof fn lemma_extent_reads_back(sectors: Seq<[u8; 512]>, start: int, data: Seq<u8>)
    requires
        forall|i: int| 0 <= i < div_ceil(data.len() as int, 512) ==> #[trigger] sectors[start + i]@ == chunk(data, 512 * i),
    ensures
        extent_data(sectors, start, data.len() as int) == data,
{
    assert forall|k: int| 0 <= k < data.len() implies #[trigger] extent_data(sectors, start, data.len() as int)[k] == data[k] by {
        let i = k / 512;
        let m = k % 512;
        vstd::arithmetic::div_mod::lemma_fundamental_div_mod(k, 512);
        vstd::arithmetic::div_mod::lemma_fundamental_div_mod(data.len() as int + 511, 512);
        assert(i < div_ceil(data.len() as int, 512)) by (nonlinear_arith)
            requires k == 512 * i + m, 0 <= m < 512, 0 <= k < data.len(),
                data.len() + 511 == 512 * ((data.len() + 511) / 512) + (data.len() + 511) % 512,
                0 <= (data.len() + 511) % 512 < 512,
                div_ceil(data.len() as int, 512) == (data.len() + 511) / 512;
        assert(i >= 0) by (nonlinear_arith) requires k == 512 * i + m, 0 <= m < 512, 0 <= k;
        assert(sectors[start + i]@ == chunk(data, 512 * i));
        assert(chunk(data, 512 * i)[m] == data[512 * i + m]);
    }
    assert(extent_data(sectors, start, data.len() as int) =~= data);
}

/// The sectors that `x` bytes fill: none for none, and the last one starts before `x`.
proof fn lemma_div_ceil_sectors(x: int)
    requires
        x >= 0,
    ensures
        x == 0 ==> div_ceil(x, 512) == 0,
        x > 0 ==> div_ceil(x, 512) >= 1 && 512 * (div_ceil(x, 512) - 1) < x,
        512 * div_ceil(x, 512) >= x,
{
    vstd::arithmetic::div_mod::lemma_fundamental_div_mod(x + 511, 512);
}

/// Writes `count` sectors from `start`: sector `start + i` gets the chunk of `data` from
/// `from + 512 * i`.
fn write_chunks<D: StorageDrive>(drive: &mut D, start: u64, data: &[u8], from: u64, count: u64) -> (r: Result<(), ImageError>)
    requires
        count == 0 || from + 512 * (count - 1) < data@.len(),
    ensures
        final(drive).sectors().len() == old(drive).sectors().len(),
        forall|l: int| 0 <= l < old(drive).sectors().len() && !(start <= l < start + count)
            ==> #[trigger] final(drive).sectors()[l] == old(drive).sectors()[l],
        r is Ok ==> forall|i: int| 0 <= i < count ==> #[trigger] final(drive).sectors()[start + i]@ == chunk(data@, from + 512 * i),
        r is Ok && count > 0 ==> start + count <= old(drive).sectors().len(),
        r matches Err(e) ==> e == ImageError::Io,
        D::answers_all() && start + count <= old(drive).sectors().len() && start + count <= u64::MAX ==> r is Ok,
{
    let mut i: u64 = 0;
    while i < count
        invariant
            i <= count,
            i > 0 ==> start + i <= old(drive).sectors().len(),
            count == 0 || from + 512 * (count - 1) < data@.len(),
            drive.sectors().len() == old(drive).sectors().len(),
            forall|l: int| 0 <= l < old(drive).sectors().len() && !(start <= l < start + i)
                ==> #[trigger] drive.sectors()[l] == old(drive).sectors()[l],
            forall|k: int| 0 <= k < i ==> #[trigger] drive.sectors()[start + k]@ == chunk(data@, from + 512 * k),
        decreases count - i,
    {
        if start > u64::MAX - i {
            return Err(ImageError::Io);
        }
        let len = data.len() as u64;
        proof {
            assert(512 * i <= 512 * (count - 1) && i * 512 == 512 * i) by (nonlinear_arith)
                requires i < count;
        }
        let off: u64 = from + i * 512;
        let n: usize = if len - off < 512 { (len - off) as usize } else { 512 };
        let mut buf = [0u8; 512];
        let mut j: usize = 0;
        while j < n
            invariant
                n <= 512,
                off < data@.len(),
                data@.len() <= usize::MAX,
                off + n <= data@.len(),
                n == 512 || off + n == data@.len(),
                j <= n,
                forall|k: int| 0 <= k < j ==> #[trigger] buf@[k] == data@[off + k],
                forall|k: int| j <= k < 512 ==> #[trigger] buf@[k] == 0u8,
            decreases n - j,
        {
            buf[j] = data[off as usize + j];
            j = j + 1;
        }
        assert(buf@ =~= chunk(data@, from + 512 * i));
        let ghost before = drive.sectors();
        write_lba(drive, start + i, &buf)?;
        proof {
            assert forall|k: int| 0 <= k < i + 1 implies #[trigger] drive.sectors()[start + k]@ == chunk(data@, from + 512 * k) by {
                if k < i {
                    assert(drive.sectors()[start + k] == before[start + k]);
                }
            }
        }
        i = i + 1;
    }
    Ok(())
}

/// A directory sector of empty slots.
fn empty_dentry() -> (r: [u8; 512])
    ensures
        r@ == zero_sector(),
{
    let b = [0u8; 512];
    assert(b@ =~= zero_sector());
    b
}

impl<D: StorageDrive> LemonFS<D> {
    /// The names of the used entries that `kids` point to (see [`used_names`]). A pointer past
    /// the six entries of a sector is `Corrupt`.
    fn names_of(&mut self, kids: &Vec<HashPointer>) -> (r: Result<Vec<String>, ImageError>)
        ensures
            final(self).image() == old(self).image(),
            final(self).sb() == old(self).sb(),
            r matches Ok(names) ==> names@.len() == used_names(old(self).image(), kids@).len()
                && forall|k: int| 0 <= k < names@.len() ==> #[trigger] names@[k]@ == used_names(old(self).image(), kids@)[k],
            r matches Err(e) ==> e == ImageError::Io || e == ImageError::Corrupt,
    {
        let ghost s = self.image();
        let mut names: Vec<String> = Vec::new();
        let mut i: usize = 0;
        while i < kids.len()
            invariant
                self.image() == s,
                s == old(self).image(),
                self.sb() == old(self).sb(),
                i <= kids@.len(),
                names@.len() == used_names(s, kids@.subrange(0, i as int)).len(),
                forall|k: int| 0 <= k < names@.len() ==> #[trigger] names@[k]@ == used_names(s, kids@.subrange(0, i as int))[k],
            decreases kids@.len() - i,
        {
            let p = kids[i];
            if p.offset >= 6 {
                return Err(ImageError::Corrupt);
            }
            let entry = hash_ptr_read(&mut self.drive, &p)?;
            proof {
                lemma_entry_fields(entry);
                let w = kids@.subrange(0, i + 1);
                assert(w.drop_last() =~= kids@.subrange(0, i as int));
                assert(w.last() == p);
            }
            if entry.status == 1 {
                let name = entry_name(&entry.name);
                names.push(name);
            }
            i = i + 1;
        }
        assert(kids@.subrange(0, kids@.len() as int) =~= kids@);
        Ok(names)
    }

    /// Walks to the directory that holds the last component of `path`, creating each
    /// directory before it that the table lacks, and adding each created one to its parent.
    /// Returns the last component and the slot and entry of its directory. A path that is
    /// empty after its leading `/` names the root and is `RootPath`; a component before the
    /// last that names a file is `NotADirectory`.
    pub fn resolve_parent(&mut self, path: &str) -> (r: Result<(String, HashPointer, HashEntry), ImageError>)
        requires
            old(self).wf(),
        ensures
            final(self).sb() == old(self).sb(),
            final(self).image().len() == old(self).image().len(),
            trimmed(path@).len() == 0 ==> r == Err::<(String, HashPointer, HashEntry), ImageError>(ImageError::RootPath)
                && final(self).image() == old(self).image(),
            trimmed(path@).len() > 0 ==> r != Err::<(String, HashPointer, HashEntry), ImageError>(ImageError::RootPath),
            r matches Ok((name, p, e)) ==> p.offset < 6 && components(trimmed(path@)).len() > 0
                && name@ == components(trimmed(path@)).last(),
            components(trimmed(path@)).len() == 1 ==> final(self).image() == old(self).image()
                && (r matches Ok((name, p, e)) ==> probe_name(old(self).image(), old(self).sb(), root_field()) == Some((p, true))
                    && entry_at(old(self).image(), p) == e && e.image() == entry_bytes(old(self).image(), p)),
            r matches Err(err) ==> err != ImageError::NotAFile && err != ImageError::IsADirectory && err != ImageError::NotInDirectory
                && err != ImageError::InvalidDestination && err != ImageError::EmptyPath && err != ImageError::TooSmall,
            components(trimmed(path@)).len() >= 1 && !root_found(old(self).image(), old(self).sb())
                ==> r is Err && final(self).image() == old(self).image(),
            components(trimmed(path@)).len() == 1 && root_found(old(self).image(), old(self).sb())
                ==> r is Ok || r == Err::<(String, HashPointer, HashEntry), ImageError>(ImageError::Io),
            components(trimmed(path@)).len() == 1 && root_found(old(self).image(), old(self).sb())
                && D::answers_all() && old(self).sb().spec_bitmap_start() <= old(self).image().len() ==> r is Ok,
            components(trimmed(path@)).len() >= 2
                && (forall|j: int| 0 <= j < components(trimmed(path@)).len() - 1
                    ==> names_dir(old(self).image(), old(self).sb(), #[trigger] components(trimmed(path@))[j]))
                ==> final(self).image() == old(self).image()
                    && (r matches Ok((name, p, e)) ==> (field_of(components(trimmed(path@))[components(trimmed(path@)).len() - 2]) matches Some(f)
                        && probe_name(old(self).image(), old(self).sb(), f) == Some((p, true))
                        && e.image() == entry_bytes(old(self).image(), p)))
                    && (root_found(old(self).image(), old(self).sb()) && D::answers_all()
                        && old(self).sb().spec_bitmap_start() <= old(self).image().len() ==> r is Ok),
            components(trimmed(path@)).len() >= 2 && root_found(old(self).image(), old(self).sb())
                && field_of(components(trimmed(path@))[0]) is None
                ==> (r == Err::<(String, HashPointer, HashEntry), ImageError>(ImageError::Io)
                    || r == Err::<(String, HashPointer, HashEntry), ImageError>(ImageError::InvalidFilename))
                    && final(self).image() == old(self).image(),
            components(trimmed(path@)).len() >= 2 && root_found(old(self).image(), old(self).sb())
                && (field_of(components(trimmed(path@))[0]) matches Some(f) && holds_non_dir(old(self).image(), old(self).sb(), f))
                ==> (r == Err::<(String, HashPointer, HashEntry), ImageError>(ImageError::Io)
                    || r == Err::<(String, HashPointer, HashEntry), ImageError>(ImageError::NotADirectory))
                    && final(self).image() == old(self).image(),
    {
        let tpath = trim_slashes(path);
        if tpath.unicode_len() == 0 {
            proof { super::paths::lemma_no_components_of_empty(); }
            return Err(ImageError::RootPath);
        }
        let root = root_name();
        let (root_ptr, root_entry) = find_entry(&mut self.drive, &self.superblock, &root)?;
        proof {
            lemma_entry_at(old(self).image(), root_ptr, root_entry);
        }
        let mut parent_ptr = root_ptr;
        let mut parent_entry = root_entry;
        let comps = path_components(tpath);
        proof {
            super::paths::lemma_trimmed_start(path@);
            super::paths::lemma_components_nonempty(tpath@);
        }
        let n = comps.len();
        let mut k: usize = 0;
        if n == 1 {
            let filename: &str = comps[0];
            return Ok((String::from_str(filename), parent_ptr, parent_entry));
        }
        let ghost cs = components(trimmed(path@));
        let ghost first_ok = field_of(cs[0]) matches Some(f) && !holds_non_dir(old(self).image(), old(self).sb(), f);
        let ghost all_dirs = forall|j: int| 0 <= j < cs.len() - 1 ==> names_dir(old(self).image(), old(self).sb(), #[trigger] cs[j]);
        let ghost answered = D::answers_all() && old(self).sb().spec_bitmap_start() <= old(self).image().len();
        while k + 1 < n
            invariant
                all_dirs == (forall|j: int| 0 <= j < cs.len() - 1 ==> names_dir(old(self).image(), old(self).sb(), #[trigger] cs[j])),
                answered == (D::answers_all() && old(self).sb().spec_bitmap_start() <= old(self).image().len()),
                all_dirs ==> self.image() == old(self).image(),
                all_dirs && k > 0 ==> (field_of(cs[k - 1]) matches Some(f)
                    && probe_name(old(self).image(), old(self).sb(), f) == Some((parent_ptr, true))
                    && parent_entry.image() == entry_bytes(old(self).image(), parent_ptr)),
                root_found(old(self).image(), old(self).sb()),
                cs == components(trimmed(path@)),
                k == 0 ==> self.image() == old(self).image(),
                k > 0 ==> first_ok,
                first_ok == (field_of(cs[0]) matches Some(f) && !holds_non_dir(old(self).image(), old(self).sb(), f)),
                n == comps@.len(),
                n > 0,
                k + 1 <= n,
                trimmed(path@).len() > 0,
                tpath@ == trimmed(path@),
                comps@.len() == components(tpath@).len(),
                forall|j: int| 0 <= j < comps@.len() ==> #[trigger] comps@[j]@ == components(tpath@)[j],
                parent_ptr.offset < 6,
                self.wf(),
                self.sb() == old(self).sb(),
                self.image().len() == old(self).image().len(),
            decreases n - k,
        {
            let comp: &str = comps[k];
            proof {
                if all_dirs {
                    assert(names_dir(old(self).image(), old(self).sb(), cs[k as int]));
                    assert(comp@ == cs[k as int]);
                }
            }
            let name_bytes = name_field(comp)?;
            let (ptr, exists) = find_hash_slot(&mut self.drive, &self.superblock, &name_bytes)?;
            proof {
                if all_dirs {
                    let total = self.sb().hashmap_size as int;
                    super::table::lemma_probe_in_table(old(self).image(), total,
                        (name_hash(name_bytes@) % self.sb().hashmap_size) as int, name_bytes@, 0, None);
                    let ks = choose|slot: int| 0 <= slot < total && ptr == super::table::slot_ptr(slot);
                    super::table::lemma_slot_in_table(ks, self.sb());
                }
            }
            if exists {
                let entry = hash_ptr_read(&mut self.drive, &ptr)?;
                proof {
                    super::disk::lemma_entry_fields(entry);
                }
                if entry.type_ != 1 {
                    return Err(ImageError::NotADirectory);
                }
                parent_ptr = ptr;
                parent_entry = entry;
            } else {
                let dir_lba = alloc_blocks(&mut self.drive, &self.superblock, 1)?;
                let empty = empty_dentry();
                write_lba(&mut self.drive, dir_lba, &empty)?;
                let dir_ptr = write_hash_entry(&mut self.drive, &self.superblock, &name_bytes, 1, dir_lba, 0, 0, 0)?;
                let mut parent_link = LinkEntry { ptr: parent_entry.link_ptr, size: parent_entry.link_size };
                dir_add_child(&mut self.drive, &self.superblock, parent_entry.start_block, &mut parent_link, dir_ptr)?;
                if parent_link.ptr != parent_entry.link_ptr || parent_link.size != parent_entry.link_size {
                    parent_entry.link_ptr = parent_link.ptr;
                    parent_entry.link_size = parent_link.size;
                    hash_ptr_write(&mut self.drive, &parent_ptr, &parent_entry)?;
                }
                parent_ptr = dir_ptr;
                parent_entry = hash_ptr_read(&mut self.drive, &dir_ptr)?;
            }
            k = k + 1;
        }
        let filename: &str = comps[n - 1];
        Ok((String::from_str(filename), parent_ptr, parent_entry))
    }

    /// Walks from the root through every component of `path` but the last, each of which
    /// must be a directory that lists the next, and returns the last component, the
    /// directory's entry and the root's entry. A path that is empty after its leading `/` is
    /// `RootPath`; a component before the last that names a file is `NotADirectory`.
    pub fn resolve_root_and_parent(&mut self, path: &str) -> (r: Result<(String, HashEntry, HashEntry), ImageError>)
        requires
            old(self).wf(),
        ensures
            final(self).image() == old(self).image(),
            final(self).sb() == old(self).sb(),
            trimmed(path@).len() == 0 ==> r == Err::<(String, HashEntry, HashEntry), ImageError>(ImageError::RootPath),
            trimmed(path@).len() > 0 ==> r != Err::<(String, HashEntry, HashEntry), ImageError>(ImageError::RootPath),
            r != Err::<(String, HashEntry, HashEntry), ImageError>(ImageError::EmptyPath),
            r matches Ok((name, dir, root)) ==> components(trimmed(path@)).len() > 0
                && name@ == components(trimmed(path@)).last()
                && root_dir_entry(old(self).image(), old(self).sb()) == Some(root)
                && parent_dir(old(self).image(), old(self).sb(), path@) == Some(dir),
            r == Err::<(String, HashEntry, HashEntry), ImageError>(ImageError::NotFound)
                || r == Err::<(String, HashEntry, HashEntry), ImageError>(ImageError::NotADirectory)
                ==> parent_dir(old(self).image(), old(self).sb(), path@) is None,
            r matches Err(e) ==> e == ImageError::Io || e == ImageError::Corrupt || e == ImageError::TableFull
                || e == ImageError::NotFound || e == ImageError::NotADirectory || e == ImageError::RootPath
                || e == ImageError::EmptyPath,
    {
        let tpath = trim_slashes(path);
        if tpath.unicode_len() == 0 {
            return Err(ImageError::RootPath);
        }
        let root = root_name();
        let ghost s = self.image();
        let found = find_entry(&mut self.drive, &self.superblock, &root);
        let (_root_ptr, root_entry) = match found {
            Ok(x) => x,
            Err(e) => {
                proof {
                    if e == ImageError::NotFound {
                        assert(root_dir_entry(s, self.sb()) is None);
                    }
                }
                return Err(e);
            }
        };
        proof {
            lemma_entry_at(s, _root_ptr, root_entry);
            assert(root_dir_entry(s, self.sb()) == Some(root_entry));
        }
        let mut current = root_entry;
        let comps = path_components(tpath);
        proof {
            super::paths::lemma_trimmed_start(path@);
            super::paths::lemma_components_nonempty(tpath@);
            assert(components(tpath@).subrange(0, 0) =~= Seq::<Seq<char>>::empty());
        }
        let n = comps.len();
        if n == 0 {
            return Err(ImageError::EmptyPath);
        }
        let mut k: usize = 0;
        while k + 1 < n
            invariant
                n == comps@.len(),
                n > 0,
                k + 1 <= n,
                self.wf(),
                self.sb() == old(self).sb(),
                self.image() == old(self).image(),
                s == old(self).image(),
                trimmed(path@).len() > 0,
                tpath@ == trimmed(path@),
                comps@.len() == components(tpath@).len(),
                forall|j: int| 0 <= j < comps@.len() ==> #[trigger] comps@[j]@ == components(tpath@)[j],
                walk_dirs(s, root_entry, components(tpath@).subrange(0, k as int)) == Some(current),
                root_dir_entry(s, old(self).sb()) == Some(root_entry),
            decreases n - k,
        {
            let comp: &str = comps[k];
            let ghost pc = components(tpath@).drop_last();
            proof {
                assert(pc.subrange(0, k as int) =~= components(tpath@).subrange(0, k as int));
                assert(pc[k as int] == comp@);
            }
            let (_child_ptr, child) = match dir_find_child(&mut self.drive, &current, comp) {
                Ok(x) => x,
                Err(e) => {
                    proof {
                        if e == ImageError::NotFound {
                            lemma_walk_step_fails(s, root_entry, pc, k as int, current);
                        }
                    }
                    return Err(e);
                }
            };
            if child.type_ != 1 {
                proof {
                    lemma_walk_step_fails(s, root_entry, pc, k as int, current);
                }
                return Err(ImageError::NotADirectory);
            }
            proof {
                let cs = components(tpath@).subrange(0, k + 1);
                assert(cs.drop_last() =~= components(tpath@).subrange(0, k as int));
                assert(cs.last() == comp@);
            }
            current = child;
            k = k + 1;
        }
        proof {
            assert(components(tpath@).subrange(0, k as int) =~= components(trimmed(path@)).drop_last());
        }
        let filename: &str = comps[n - 1];
        Ok((String::from_str(filename), current, root_entry))
    }

    /// The file that `path` names (see [`Self::resolve_root_and_parent`]): the first child of
    /// the directory that holds the last piece of the path, if it is a file.
    fn find_file(&mut self, path: &str) -> (r: Result<HashEntry, ImageError>)
        requires
            old(self).wf(),
            trimmed(path@).len() > 0,
        ensures
            final(self).image() == old(self).image(),
            final(self).sb() == old(self).sb(),
            r matches Ok(e) ==> e.type_ == 0 && stored_name(e.name@) == encode_utf8(last_piece(trimmed(path@)))
                && path_file(old(self).image(), old(self).sb(), path@) == Some(e),
            r == Err::<HashEntry, ImageError>(ImageError::NotAFile) ==> (parent_dir(old(self).image(), old(self).sb(), path@) matches Some(d)
                && first_child(old(self).image(), d, encode_utf8(last_piece(trimmed(path@)))) matches Some(p)
                && entry_at(old(self).image(), p).type_ != 0),
            r == Err::<HashEntry, ImageError>(ImageError::NotFound) ==> (parent_dir(old(self).image(), old(self).sb(), path@) matches Some(d)
                    && first_child(old(self).image(), d, encode_utf8(last_piece(trimmed(path@)))) is None)
                || root_dir_entry(old(self).image(), old(self).sb()) is None || parent_dir(old(self).image(), old(self).sb(), path@) is None,
            r matches Err(e) ==> e != ImageError::RootPath && e != ImageError::IsADirectory,
    {
        let tpath = trim_slashes(path);
        let (_filename, dir_entry, _root) = self.resolve_root_and_parent(path)?;
        let filename = path_last_piece(tpath);
        let (_child_ptr, file_entry) = dir_find_child(&mut self.drive, &dir_entry, filename)?;
        proof {
            lemma_entry_fields(file_entry);
        }
        if file_entry.type_ != 0 {
            return Err(ImageError::NotAFile);
        }
        Ok(file_entry)
    }

    /// The contents of the file that `path` names: the bytes of its first extent, then those
    /// of the extents of its link chain. A path that is empty after its leading `/` is
    /// `RootPath`; a name that is a directory is `NotAFile`.
    pub fn read_file(&mut self, path: &str) -> (r: Result<Vec<u8>, ImageError>)
        requires
            old(self).wf(),
        ensures
            final(self).image() == old(self).image(),
            final(self).sb() == old(self).sb(),
            trimmed(path@).len() == 0 ==> r == Err::<Vec<u8>, ImageError>(ImageError::RootPath),
            r matches Ok(data) ==> (path_file(old(self).image(), old(self).sb(), path@) matches Some(e)
                && file_data(old(self).image(), e) == Some(data@)),
    {
        let tpath = trim_slashes(path);
        if tpath.unicode_len() == 0 {
            return Err(ImageError::RootPath);
        }
        let file_entry = self.find_file(path)?;
        let mut data: Vec<u8> = Vec::new();
        let link = LinkEntry { ptr: file_entry.link_ptr, size: file_entry.link_size };
        read_link_data(&mut self.drive, &link, file_entry.start_block, file_entry.file_size, &mut data)?;
        proof {
            assert(data@ =~= Seq::<u8>::empty() + extent_data(old(self).image(), file_entry.start_block as int, file_entry.file_size as int)
                + chain_data(old(self).image(), chain(old(self).image(), link)->0));
            assert(link == entry_chain(file_entry));
        }
        Ok(data)
    }

    /// The size of the file that `path` names: the size of its first extent plus those of
    /// the extents of its link chain. Errors as for [`Self::read_file`].
    pub fn file_size(&mut self, path: &str) -> (r: Result<u64, ImageError>)
        requires
            old(self).wf(),
        ensures
            final(self).image() == old(self).image(),
            final(self).sb() == old(self).sb(),
            trimmed(path@).len() == 0 ==> r == Err::<u64, ImageError>(ImageError::RootPath),
            r matches Ok(t) ==> (path_file(old(self).image(), old(self).sb(), path@) matches Some(e)
                && chain(old(self).image(), entry_chain(e)) matches Some(v) && t == e.file_size + sum_sizes(v)),
    {
        let tpath = trim_slashes(path);
        if tpath.unicode_len() == 0 {
            return Err(ImageError::RootPath);
        }
        let file_entry = self.find_file(path)?;
        let link = LinkEntry { ptr: file_entry.link_ptr, size: file_entry.link_size };
        let t = total_file_size(&mut self.drive, file_entry.start_block, file_entry.file_size, &link)?;
        proof {
            assert(link == entry_chain(file_entry));
        }
        Ok(t)
    }

    /// The names of the used entries that a directory lists: the root's when `path` is empty
    /// after its leading `/`, else the directory that holds the last component of `path` (see
    /// [`Self::resolve_root_and_parent`]).
    pub fn list_directory(&mut self, path: &str) -> (r: Result<Vec<String>, ImageError>)
        requires
            old(self).wf(),
        ensures
            final(self).image() == old(self).image(),
            final(self).sb() == old(self).sb(),
            r matches Ok(names) ==> ((if trimmed(path@).len() == 0 { root_dir_entry(old(self).image(), old(self).sb()) }
                else { parent_dir(old(self).image(), old(self).sb(), path@) }) matches Some(e)
                && chain(old(self).image(), entry_chain(e)) matches Some(v) && ({
                    let used = used_names(old(self).image(), listing(old(self).image(), e.start_block, v));
                    names@.len() == used.len() && forall|k: int| 0 <= k < used.len() ==> #[trigger] names@[k]@ == used[k]
                })),
            r matches Err(e) ==> e != ImageError::RootPath,
    {
        let tpath = trim_slashes(path);
        let dir_entry = if tpath.unicode_len() == 0 {
            let root = root_name();
            let (_root_ptr, root_entry) = find_entry(&mut self.drive, &self.superblock, &root)?;
            proof {
                lemma_entry_at(old(self).image(), _root_ptr, root_entry);
            }
            root_entry
        } else {
            let (_filename, dir_entry, _root) = self.resolve_root_and_parent(path)?;
            dir_entry
        };
        let kids = dir_children(&mut self.drive, &dir_entry)?;
        let names = self.names_of(&kids)?;
        Ok(names)
    }

    /// Writes `data` as the file that `path` names. The directories before the last
    /// component are found or created (see [`Self::resolve_parent`]). A file that is not yet
    /// there gets a run of sectors (`DiskFull` when none is long enough) and is added to its
    /// directory. A file that is there keeps its first sector when the data fits in its
    /// sectors (its link chain and the sectors it no longer needs are freed); else it moves to
    /// a new run that fits the data; else its sectors take the first part and the rest goes to
    /// a new extent appended to its chain. A name that is a directory is `IsADirectory`.
    #[verifier::rlimit(60)]
    pub fn write_file(&mut self, path: &str, data: &[u8]) -> (r: Result<(), ImageError>)
        requires
            old(self).wf(),
        ensures
            final(self).sb() == old(self).sb(),
            final(self).image().len() == old(self).image().len(),
            trimmed(path@).len() == 0 ==> r == Err::<(), ImageError>(ImageError::RootPath)
                && final(self).image() == old(self).image(),
            r matches Err(e) ==> e != ImageError::NotAFile && e != ImageError::NotInDirectory
                && e != ImageError::InvalidDestination && e != ImageError::EmptyPath && e != ImageError::TooSmall,
            components(trimmed(path@)).len() == 1 && root_found(old(self).image(), old(self).sb())
                && field_of(components(trimmed(path@))[0]) is None
                ==> (r == Err::<(), ImageError>(ImageError::Io) || r == Err::<(), ImageError>(ImageError::InvalidFilename))
                    && final(self).image() == old(self).image(),
            components(trimmed(path@)).len() == 1 && root_found(old(self).image(), old(self).sb())
                && field_of(components(trimmed(path@))[0]) is None
                && D::answers_all() && old(self).sb().spec_bitmap_start() <= old(self).image().len()
                ==> r == Err::<(), ImageError>(ImageError::InvalidFilename),
            r is Ok && data@.len() > 0 && root_write_ready(old(self).image(), old(self).sb(), path@)
                ==> (path_file(final(self).image(), final(self).sb(), path@) matches Some(e)
                    && file_data(final(self).image(), e) == Some(data@)),
            D::answers_all() && data@.len() > 0 && root_write_ready(old(self).image(), old(self).sb(), path@)
                && old(self).sb().total_blocks <= old(self).image().len()
                && super::space::alloc_search(old(self).image(), old(self).sb().spec_bitmap_start(), old(self).sb().bitmap_size as int,
                    old(self).sb().total_blocks - old(self).sb().spec_data_start(), div_ceil(data@.len() as int, 512), 0) is Some
                ==> r is Ok,
            D::answers_all() && data@.len() > 0 && root_rewrite_ready(old(self).image(), old(self).sb(), path@, data@.len() as int)
                && root_file_within(old(self).image(), old(self).sb(), path@)
                && old(self).sb().total_blocks <= old(self).image().len()
                ==> r is Ok,
            D::answers_all() && root_regrow_ready(old(self).image(), old(self).sb(), path@, data@.len() as int)
                && root_file_within(old(self).image(), old(self).sb(), path@)
                && old(self).sb().total_blocks <= old(self).image().len()
                && super::space::alloc_search(old(self).image(), old(self).sb().spec_bitmap_start(), old(self).sb().bitmap_size as int,
                    old(self).sb().total_blocks - old(self).sb().spec_data_start(), div_ceil(data@.len() as int, 512), 0) is Some
                ==> r is Ok && (path_file(final(self).image(), final(self).sb(), path@) matches Some(e)
                    && file_data(final(self).image(), e) == Some(data@)),
            r is Ok && data@.len() > 0 && root_rewrite_ready(old(self).image(), old(self).sb(), path@, data@.len() as int)
                ==> (path_file(final(self).image(), final(self).sb(), path@) matches Some(e)
                    && file_data(final(self).image(), e) == Some(data@)),
            (field_of(components(trimmed(path@))[0]) matches Some(f)
                && components(trimmed(path@)).len() == 1 && root_found(old(self).image(), old(self).sb()) && data@.len() > 0
                && !(probe_name(old(self).image(), old(self).sb(), f) matches Some(x) && x.1)
                && super::space::alloc_search(old(self).image(), old(self).sb().spec_bitmap_start(), old(self).sb().bitmap_size as int,
                    old(self).sb().total_blocks - old(self).sb().spec_data_start(), div_ceil(data@.len() as int, 512), 0) is None)
                ==> (r == Err::<(), ImageError>(ImageError::DiskFull) || r == Err::<(), ImageError>(ImageError::Io)),
            components(trimmed(path@)).len() == 1 && r == Err::<(), ImageError>(ImageError::IsADirectory)
                ==> (probe_name(old(self).image(), old(self).sb(),
                    crate::fs::hashtable::hash::padded_name(encode_utf8(components(trimmed(path@))[0]))) matches Some(f)
                    && f.1 && entry_at(old(self).image(), f.0).type_ == 1)
                    && final(self).image() == old(self).image(),
    {
        let ghost s0 = self.image();
        let ghost ready = data@.len() > 0 && root_write_ready(s0, self.sb(), path@);
        let ghost rewrite = data@.len() > 0 && root_rewrite_ready(s0, self.sb(), path@, data@.len() as int);
        let ghost regrow = D::answers_all() && root_regrow_ready(s0, self.sb(), path@, data@.len() as int)
            && root_file_within(s0, self.sb(), path@) && self.sb().total_blocks <= s0.len()
            && super::space::alloc_search(s0, self.sb().spec_bitmap_start(), self.sb().bitmap_size as int,
                self.sb().total_blocks - self.sb().spec_data_start(), div_ceil(data@.len() as int, 512), 0) is Some;
        proof {
            if ready || rewrite || regrow {
                super::paths::lemma_plain_name(trimmed(path@));
                assert(encode_utf8(trimmed(path@)).len() > 0);
            }
        }
        let ghost one = components(trimmed(path@)).len() == 1;
        let (filename, parent_ptr, mut parent_entry) = self.resolve_parent(path)?;
        proof {
            if one {
                assert(filename@ == components(trimmed(path@))[0]);
            }
        }
        let name_bytes = name_field(filename.as_str())?;
        let ghost mut g_alloc: Seq<[u8; 512]> = s0;
        let ghost mut g_data: Seq<[u8; 512]> = s0;
        let ghost mut g_entry: Seq<[u8; 512]> = s0;
        let ghost mut g_start: u64 = 0;
        let ghost mut g_ptr: HashPointer = parent_ptr;
        let lookup = find_entry(&mut self.drive, &self.superblock, &name_bytes);
        proof {
            if lookup is Ok {
                let (fp, fe) = lookup->Ok_0;
                if ready {
                    assert(probe_name(s0, self.sb(), name_bytes@) == Some((fp, true)));
                    assert(false);
                }
                if rewrite || regrow {
                    g_ptr = fp;
                }
                if one || rewrite || regrow {
                    super::dirs::lemma_entry_at(s0, fp, fe);
                }
            }
        }
        let old_file = existing_file(lookup)?;
        let new_size = data.len() as u64;
        proof {
            lemma_div_ceil_sectors(new_size as int);
        }
        match old_file {
            Some(old) => {
                let old_lbas = u64_div_ceil(old.file_size, 512);
                let old_link = LinkEntry { ptr: old.link_ptr, size: old.link_size };
                proof {
                    lemma_div_ceil_sectors(old.file_size as int);
                }
                if new_size <= old.file_size {
                    free_link_chain(&mut self.drive, &self.superblock, old_link)?;
                    let ghost t1 = self.image();
                    let new_lbas = u64_div_ceil(new_size, 512);
                    proof {
                        assert(new_lbas <= old_lbas) by (nonlinear_arith)
                            requires new_size <= old.file_size, new_lbas == (new_size + 511) / 512,
                                old_lbas == (old.file_size + 511) / 512;
                    }
                    write_chunks(&mut self.drive, old.start_block, data, 0, new_lbas)?;
                    let ghost t2 = self.image();
                    if new_lbas < old_lbas {
                        if old.start_block > u64::MAX - new_lbas {
                            return Err(ImageError::Corrupt);
                        }
                        free_blocks(&mut self.drive, &self.superblock, old.start_block + new_lbas, old_lbas - new_lbas)?;
                    }
                    let ghost t3 = self.image();
                    proof {
                        if rewrite {
                            let bs = self.sb().spec_bitmap_start();
                            let nm = name_bytes@;
                            assert forall|l: int| 0 <= l < bs implies #[trigger] t3[l] == s0[l] by {
                                assert(t1[l] == s0[l]);
                                assert(t2[l] == t1[l]);
                            }
                            lemma_table_same(s0, t3, self.sb());
                            super::table::lemma_probe_frame(s0, t3, self.sb().hashmap_size as int,
                                (name_hash(nm) % self.sb().hashmap_size) as int, nm, 0, None);
                        }
                    }
                    let q = write_hash_entry(&mut self.drive, &self.superblock, &name_bytes, 0, old.start_block, new_size, 0, 0)?;
                    proof {
                        if rewrite {
                            let root = root_dir_entry(s0, self.sb())->0;
                            assert(forall|i: int| 0 <= i < new_lbas ==> #[trigger] t2[old.start_block + i]@ == chunk(data@, 512 * i));
                            lemma_rewrite_root_file(s0, t1, t2, t3, self.image(), self.sb(), path@, data@, name_bytes,
                                root, g_ptr, q, old.start_block);
                        }
                    }
                } else {
                    let new_lbas = u64_div_ceil(new_size, 512);
                    match alloc_blocks(&mut self.drive, &self.superblock, new_lbas) {
                        Ok(new_start) => {
                            let ghost a1 = self.image();
                            free_link_chain(&mut self.drive, &self.superblock, old_link)?;
                            free_blocks(&mut self.drive, &self.superblock, old.start_block, old_lbas)?;
                            let ghost u1 = self.image();
                            proof {
                                if regrow {
                                    let bs = self.sb().spec_bitmap_start();
                                    let nbk = self.sb().bitmap_size as int;
                                    assert forall|l: int| 0 <= l < s0.len() && !(bs <= l < bs + nbk) implies #[trigger] u1[l] == s0[l] by {
                                        assert(a1[l] == s0[l]);
                                    }
                                    super::space::lemma_alloc_skips_first(s0, bs, nbk,
                                        self.sb().total_blocks - self.sb().spec_data_start(), new_lbas as int, 0);
                                    super::space::lemma_alloc_search_fits(s0, bs, nbk,
                                        self.sb().total_blocks - self.sb().spec_data_start(), new_lbas as int, 0);
                                }
                            }
                            write_chunks(&mut self.drive, new_start, data, 0, new_lbas)?;
                            let ghost u2 = self.image();
                            proof {
                                if regrow {
                                    let bs = self.sb().spec_bitmap_start();
                                    let nm = name_bytes@;
                                    assert forall|l: int| 0 <= l < bs implies #[trigger] u2[l] == s0[l] by {
                                        assert(u1[l] == s0[l]);
                                    }
                                    lemma_table_same(s0, u2, self.sb());
                                    super::table::lemma_probe_frame(s0, u2, self.sb().hashmap_size as int,
                                        (name_hash(nm) % self.sb().hashmap_size) as int, nm, 0, None);
                                }
                            }
                            let q = write_hash_entry(&mut self.drive, &self.superblock, &name_bytes, 0, new_start, new_size, 0, 0)?;
                            proof {
                                if regrow {
                                    let root = root_dir_entry(s0, self.sb())->0;
                                    lemma_rewrite_root_file(s0, u1, u2, u2, self.image(), self.sb(), path@, data@, name_bytes,
                                        root, g_ptr, q, new_start);
                                }
                            }
                        }
                        Err(_) => {
                            write_chunks(&mut self.drive, old.start_block, data, 0, old_lbas)?;
                            let overflow_size = new_size - old.file_size;
                            let overflow_lbas = u64_div_ceil(overflow_size, 512);
                            proof {
                                lemma_div_ceil_sectors(overflow_size as int);
                            }
                            let overflow_start = alloc_blocks(&mut self.drive, &self.superblock, overflow_lbas)?;
                            write_chunks(&mut self.drive, overflow_start, data, old.file_size, overflow_lbas)?;
                            let mut link = old_link;
                            extend_link(&mut self.drive, &self.superblock, &mut link, LinkEntry { ptr: overflow_start, size: overflow_size })?;
                            write_hash_entry(&mut self.drive, &self.superblock, &name_bytes, 0, old.start_block, new_size, link.ptr, link.size)?;
                        }
                    }
                }
            }
            None => {
                if data.len() == 0 {
                    let data_start = self.superblock.data_start();
                    write_hash_entry(&mut self.drive, &self.superblock, &name_bytes, 0, data_start, 0, 0, 0)?;
                } else {
                    let blocks_needed = u64_div_ceil(new_size, 512);
                    match alloc_blocks(&mut self.drive, &self.superblock, blocks_needed) {
                        Ok(start_lba) => {
                            proof {
                                g_alloc = self.image();
                                g_start = start_lba;
                                if ready {
                                    super::space::lemma_alloc_search_fits(s0, self.sb().spec_bitmap_start(), self.sb().bitmap_size as int,
                                        self.sb().total_blocks - self.sb().spec_data_start(), blocks_needed as int, 0);
                                }
                            }
                            write_chunks(&mut self.drive, start_lba, data, 0, blocks_needed)?;
                            proof {
                                g_data = self.image();
                                if ready {
                                    lemma_ready_probe_steps(s0, g_data, g_data, self.sb(), path@, data@, name_bytes, start_lba, parent_ptr);
                                }
                            }
                            let hp = write_hash_entry(&mut self.drive, &self.superblock, &name_bytes, 0, start_lba, new_size, 0, 0)?;
                            proof {
                                g_entry = self.image();
                                g_ptr = hp;
                                if ready {
                                    lemma_ready_probe_steps(s0, g_data, g_entry, self.sb(), path@, data@, name_bytes, start_lba, hp);
                                }
                            }
                        }
                        Err(_) => {
                            return Err(ImageError::DiskFull);
                        }
                    }
                }
                let (child_ptr, _child) = find_entry(&mut self.drive, &self.superblock, &name_bytes)?;
                let mut parent_link = LinkEntry { ptr: parent_entry.link_ptr, size: parent_entry.link_size };
                proof {
                    if ready {
                        lemma_root_sector_kept(s0, g_alloc, g_data, g_entry, self.sb(), path@, data@, name_bytes,
                            g_start - self.sb().spec_data_start(), g_start, g_ptr);
                        assert(parent_entry.start_block == self.sb().spec_data_start());
                        let ds0 = self.sb().spec_data_start();
                        let fi = choose|i: int| 0 <= i < 56 && #[trigger] super::disk::ptrs_of(s0[ds0]@)[i].lba == 0;
                        assert(super::disk::ptrs_of(g_entry[ds0]@)[fi].lba == 0);
                    }
                    if rewrite {
                        lemma_root_sector_kept(s0, g_alloc, g_data, g_entry, self.sb(), path@, data@, name_bytes,
                            g_start - self.sb().spec_data_start(), g_start, g_ptr);
                        assert(parent_entry.start_block == self.sb().spec_data_start());
                        let ds0 = self.sb().spec_data_start();
                        let fi = choose|i: int| 0 <= i < 56 && #[trigger] super::disk::ptrs_of(s0[ds0]@)[i].lba == 0;
                        assert(super::disk::ptrs_of(g_entry[ds0]@)[fi].lba == 0);
                    }
                }
                dir_add_child(&mut self.drive, &self.superblock, parent_entry.start_block, &mut parent_link, child_ptr)?;
                proof {
                    if ready {
                        let ds = self.sb().spec_data_start();
                        let slot_i = choose|i: int| 0 <= i < 56 && super::disk::ptrs_of(g_entry[ds]@)[i].lba == 0
                            && #[trigger] super::table::sector_spliced(g_entry, self.image(), ds, i * 9, child_ptr.image());
                        let st = g_start - ds;
                        lemma_first_root_file(s0, g_alloc, g_data, g_entry, self.image(), self.sb(), path@, data@, name_bytes,
                            st, g_start, g_ptr, child_ptr, slot_i, parent_ptr, parent_entry);
                    }
                    if rewrite {
                        let ds = self.sb().spec_data_start();
                        let slot_i = choose|i: int| 0 <= i < 56 && super::disk::ptrs_of(g_entry[ds]@)[i].lba == 0
                            && #[trigger] super::table::sector_spliced(g_entry, self.image(), ds, i * 9, child_ptr.image());
                        let root = root_dir_entry(s0, self.sb())->0;
                        lemma_rewrite_root_fresh(s0, g_alloc, g_data, g_entry, self.image(), self.sb(), path@, data@, name_bytes,
                            g_start - ds, g_start, g_ptr, child_ptr, slot_i, root);
                    }
                }
                if parent_link.ptr != parent_entry.link_ptr || parent_link.size != parent_entry.link_size {
                    parent_entry.link_ptr = parent_link.ptr;
                    parent_entry.link_size = parent_link.size;
                    hash_ptr_write(&mut self.drive, &parent_ptr, &parent_entry)?;
                }
            }
        }
        Ok(())
    }

    /// Removes the file that `path` names: takes it out of its directory (see
    /// [`Self::resolve_parent`]), frees its sectors and its link chain, and marks its entry a
    /// tombstone. A name that is a directory is `NotAFile`.
    pub fn remove_file(&mut self, path: &str) -> (r: Result<(), ImageError>)
        requires
            old(self).wf(),
        ensures
            final(self).sb() == old(self).sb(),
            final(self).image().len() == old(self).image().len(),
            trimmed(path@).len() == 0 ==> r == Err::<(), ImageError>(ImageError::RootPath)
                && final(self).image() == old(self).image(),
            r is Ok ==> exists|p: HashPointer| #![trigger p.lba] p.offset < 6 && p.lba < final(self).image().len()
                && entry_status(entry_bytes(final(self).image(), p)) == 0xFF,
            r matches Err(e) ==> e != ImageError::IsADirectory && e != ImageError::InvalidDestination
                && e != ImageError::EmptyPath && e != ImageError::TooSmall,
            components(trimmed(path@)).len() == 1 && root_found(old(self).image(), old(self).sb())
                ==> (find_refusal(old(self).image(), old(self).sb(), components(trimmed(path@))[0]) matches Some(e)
                ==> (r == Err::<(), ImageError>(ImageError::Io) || r == Err::<(), ImageError>(e))
                    && final(self).image() == old(self).image()),
            components(trimmed(path@)).len() == 1 && root_found(old(self).image(), old(self).sb())
                && find_refusal(old(self).image(), old(self).sb(), components(trimmed(path@))[0]) is None
                && entry_bytes(old(self).image(), found_slot(old(self).image(), old(self).sb(), components(trimmed(path@))[0]))[1] != 0
                ==> (r == Err::<(), ImageError>(ImageError::Io) || r == Err::<(), ImageError>(ImageError::NotAFile))
                    && final(self).image() == old(self).image(),
            components(trimmed(path@)).len() == 1 && r is Ok
                ==> root_found(old(self).image(), old(self).sb()) && find_refusal(old(self).image(), old(self).sb(), components(trimmed(path@))[0]) is None
                && entry_bytes(old(self).image(), found_slot(old(self).image(), old(self).sb(), components(trimmed(path@))[0]))[1] == 0
                && entry_status(entry_bytes(final(self).image(),
                    found_slot(old(self).image(), old(self).sb(), components(trimmed(path@))[0]))) == 0xFF,
    {
        let ghost one = components(trimmed(path@)).len() == 1;
        let ghost c0 = components(trimmed(path@))[0];
        let (filename, _parent_ptr, parent_entry) = self.resolve_parent(path)?;
        proof {
            if one {
                assert(filename@ == c0);
            }
        }
        let name_bytes = name_field(filename.as_str())?;
        let (child_ptr, file_entry) = find_entry(&mut self.drive, &self.superblock, &name_bytes)?;
        proof {
            super::disk::lemma_entry_fields(file_entry);
            if one {
                assert(field_of(c0) == Some(name_bytes@));
                assert(child_ptr == found_slot(old(self).image(), old(self).sb(), c0));
            }
        }
        if file_entry.type_ != 0 {
            return Err(ImageError::NotAFile);
        }
        dir_remove_child(&mut self.drive, &parent_entry, &child_ptr)?;
        let data_lbas = u64_div_ceil(file_entry.file_size, 512);
        free_blocks(&mut self.drive, &self.superblock, file_entry.start_block, data_lbas)?;
        let link = LinkEntry { ptr: file_entry.link_ptr, size: file_entry.link_size };
        free_link_chain(&mut self.drive, &self.superblock, link)?;
        let ghost before = self.drive.sectors();
        tombstone(&mut self.drive, &child_ptr)?;
        proof {
            let off = child_ptr.offset * 74;
            assert(before[child_ptr.lba as int]@.len() == 512);
            assert(one ==> child_ptr == found_slot(old(self).image(), old(self).sb(), c0));
            assert(self.drive.sectors()[child_ptr.lba as int]@[off] == 0xFFu8);
            assert(entry_bytes(self.image(), child_ptr)[0] == 0xFFu8);
        }
        Ok(())
    }

    /// Moves the file or directory that `src` names (see [`Self::resolve_root_and_parent`]).
    /// The destination's components before the last must be directories; when the last names
    /// a directory, the entry moves into it under its own name, else into the directory before
    /// it under the last component's name. Moving an entry onto itself does nothing. A renamed
    /// entry is written to a free slot for its new name and its old slot becomes a tombstone.
    /// A `src` that is empty after its leading `/` is `RootPath`; a `dest` without components
    /// is `InvalidDestination`.
    #[verifier::spinoff_prover]
    #[verifier::rlimit(100)]
    pub fn move_(&mut self, src: &str, dest: &str) -> (r: Result<(), ImageError>)
        requires
            old(self).wf(),
        ensures
            final(self).sb() == old(self).sb(),
            final(self).image().len() == old(self).image().len(),
            trimmed(src@).len() == 0 ==> r == Err::<(), ImageError>(ImageError::RootPath)
                && final(self).image() == old(self).image(),
            r matches Err(e) ==> e != ImageError::IsADirectory && e != ImageError::NotAFile
                && e != ImageError::EmptyPath && e != ImageError::TooSmall,
            components(trimmed(dest@)).len() == 0 ==> r is Err && final(self).image() == old(self).image(),
            (parent_dir(old(self).image(), old(self).sb(), src@) matches Some(d)
                && super::dirs::first_child(old(self).image(), d, encode_utf8(last_piece(trimmed(src@)))) is None)
                ==> (r is Err && final(self).image() == old(self).image()),
            (plain_name(trimmed(src@)) && trimmed(dest@) == trimmed(src@)
                && (parent_dir(old(self).image(), old(self).sb(), src@) matches Some(d)
                && super::dirs::first_child(old(self).image(), d, encode_utf8(trimmed(src@))) matches Some(p)
                && entry_at(old(self).image(), p).type_ != 1))
                ==> final(self).image() == old(self).image(),
            r is Ok && root_move_ready(old(self).image(), old(self).sb(), src@, dest@)
                ==> (path_file(old(self).image(), old(self).sb(), src@) matches Some(f)
                    && (path_file(final(self).image(), final(self).sb(), dest@) matches Some(e)
                    && moved_as(e, f, crate::fs::hashtable::hash::padded_name(encode_utf8(trimmed(dest@))))
                    && file_data(final(self).image(), e) == file_data(old(self).image(), f)))
                    && path_file(final(self).image(), final(self).sb(), src@) is None,
    {
        let ghost s0 = self.image();
        let ghost selfmove = plain_name(trimmed(src@)) && trimmed(dest@) == trimmed(src@);
        let ghost mv = root_move_ready(s0, self.sb(), src@, dest@);
        proof {
            if selfmove {
                super::paths::lemma_plain_name(trimmed(src@));
                assert(components(trimmed(src@)).drop_last() =~= Seq::<Seq<char>>::empty());
            }
            if mv {
                super::paths::lemma_plain_name(trimmed(src@));
                super::paths::lemma_plain_name(trimmed(dest@));
                assert(components(trimmed(src@)).drop_last() =~= Seq::<Seq<char>>::empty());
            }
        }
        let src_t = trim_slashes(src);
        let dest_t = trim_slashes(dest);
        if src_t.unicode_len() == 0 {
            return Err(ImageError::RootPath);
        }
        let (_src_name, src_dir_entry, _root) = self.resolve_root_and_parent(src)?;
        let src_filename = path_last_piece(src_t);
        let (src_ptr, src_entry) = dir_find_child(&mut self.drive, &src_dir_entry, src_filename)?;
        let root = root_name();
        let (_root_ptr, root_entry) = find_entry(&mut self.drive, &self.superblock, &root)?;
        proof {
            super::dirs::lemma_entry_at(s0, _root_ptr, root_entry);
            if selfmove || mv {
                assert(src_dir_entry == root_entry);
            }
        }
        let ghost ds0 = self.sb().spec_data_start();
        let ghost ps0 = super::disk::ptrs_of(s0[ds0]@);
        let ghost kids0 = super::dirs::live_ptrs(ps0);
        let ghost mut k0: int = 0;
        proof {
            if mv {
                assert(src_filename@ == trimmed(src@));
                reveal_with_fuel(super::links::walk, 2);
                assert(chain(s0, entry_chain(root_entry)) == Some(Seq::<LinkEntry>::empty()));
                assert(listing(s0, root_entry.start_block, Seq::<LinkEntry>::empty()) =~= kids0);
                lemma_first_match_found(s0, kids0, encode_utf8(trimmed(src@)));
                let si = choose|i: int| 0 <= i < kids0.len() && kids0[i] == src_ptr;
                lemma_live_in(ps0, src_ptr, si);
                assert(super::dirs::holds_ptr(s0, ds0, src_ptr));
                assert forall|i: int| 0 <= i < kids0.len()
                    implies !super::dirs::child_matches(s0, #[trigger] kids0[i], encode_utf8(trimmed(dest@))) by {
                    lemma_live_in(ps0, kids0[i], i);
                }
                lemma_first_match_none(s0, kids0, encode_utf8(trimmed(dest@)));
            }
        }
        let mut current = root_entry;
        let dest_components = path_components(dest_t);
        let n = dest_components.len();
        if n == 0 {
            return Err(ImageError::InvalidDestination);
        }
        let mut k: usize = 0;
        while k + 1 < n
            invariant
                n == dest_components@.len(),
                k + 1 <= n,
                self.wf(),
                self.sb() == old(self).sb(),
                self.image() == old(self).image(),
                trimmed(src@).len() > 0,
                n == 1 ==> current == root_entry,
            decreases n - k,
        {
            let comp: &str = dest_components[k];
            let (_child_ptr, child) = dir_find_child(&mut self.drive, &current, comp)?;
            if child.type_ != 1 {
                return Err(ImageError::NotADirectory);
            }
            current = child;
            k = k + 1;
        }
        let dest_last: &str = dest_components[n - 1];
        proof {
            if selfmove {
                assert(dest_last@ == trimmed(src@));
                assert(src_filename@ == trimmed(src@));
            }
        }
        let (dest_dir_entry, new_name) = match dir_find_child(&mut self.drive, &current, dest_last) {
            Ok((_dp, de)) => {
                proof {
                    if selfmove {
                        assert(_dp == src_ptr);
                    }
                    if mv {
                        assert(dest_last@ == trimmed(dest@));
                        assert(false);
                    }
                }
                if de.type_ == 1 {
                    (de, String::from_str(src_filename))
                } else {
                    (current, String::from_str(dest_last))
                }
            }
            Err(_) => (current, String::from_str(dest_last)),
        };
        let same_name = str_eq(new_name.as_str(), src_filename);
        if src_dir_entry.start_block == dest_dir_entry.start_block && same_name {
            return Ok(());
        }
        dir_remove_child(&mut self.drive, &src_dir_entry, &src_ptr)?;
        let ghost t1 = self.image();
        proof {
            if mv {
                k0 = choose|k: int| 0 <= k < 56
                    && super::disk::ptrs_of(s0[src_dir_entry.start_block as int]@)[k] == src_ptr
                    && (forall|jj: int| 0 <= jj < k ==> #[trigger] super::disk::ptrs_of(s0[src_dir_entry.start_block as int]@)[jj] != src_ptr)
                    && #[trigger] super::table::sector_spliced(s0, t1, src_dir_entry.start_block as int, k * 9, super::dirs::null_ptr().image());
            }
        }
        let new_name_bytes = name_field(new_name.as_str())?;
        let ghost mut t2: Seq<[u8; 512]> = t1;
        let ghost mut t3: Seq<[u8; 512]> = t1;
        let ghost mut moved: HashEntry = src_entry;
        let new_ptr = if !same_name {
            if src_ptr.offset >= 6 {
                return Err(ImageError::Corrupt);
            }
            tombstone(&mut self.drive, &src_ptr)?;
            proof { t2 = self.image(); }
            let new_ptr = find_free_slot(&mut self.drive, &self.superblock, &new_name_bytes)?;
            let mut entry = src_entry;
            entry.name = new_name_bytes;
            entry.status = 1;
            hash_ptr_write(&mut self.drive, &new_ptr, &entry)?;
            proof {
                t3 = self.image();
                moved = entry;
            }
            new_ptr
        } else {
            src_ptr
        };
        let mut dest_link = LinkEntry { ptr: dest_dir_entry.link_ptr, size: dest_dir_entry.link_size };
        proof {
            if mv {
                let total = self.sb().hashmap_size as int;
                super::table::lemma_probe_free_slot(t2, total, (name_hash(new_name_bytes@) % self.sb().hashmap_size) as int, 0);
                let ns = choose|slot: int| 0 <= slot < total && new_ptr == super::table::slot_ptr(slot);
                super::table::lemma_slot_in_table(ns, self.sb());
                assert(src_ptr.lba < self.sb().spec_bitmap_start());
                assert(t2[ds0] == t1[ds0]);
                assert(t3[ds0] == t1[ds0]);
                super::dirs::lemma_ptr_written(s0[ds0]@, t1[ds0]@, k0, super::dirs::null_ptr());
                assert(super::disk::ptrs_of(t3[ds0]@)[k0].lba == 0);
            }
        }
        dir_add_child(&mut self.drive, &self.superblock, dest_dir_entry.start_block, &mut dest_link, new_ptr)?;
        proof {
            if mv {
                let jslot = choose|i: int| 0 <= i < 56 && super::disk::ptrs_of(t3[ds0]@)[i].lba == 0
                    && #[trigger] super::table::sector_spliced(t3, self.image(), ds0, i * 9, new_ptr.image());
                lemma_move_root_file(s0, t1, t2, t3, self.image(), self.sb(), src@, dest@, root_entry, _root_ptr,
                    src_ptr, src_entry, k0, new_ptr, new_name_bytes, moved, jslot);
            }
        }
        Ok(())
    }

    /// The directory entry named `name`: the one the table holds, which must be a directory
    /// (else `NotADirectory`), or a new empty directory, which is added to `parent`.
    pub fn ensure_and_get_directory(&mut self, name: &str, parent: &HashEntry) -> (r: Result<HashEntry, ImageError>)
        requires
            old(self).wf(),
        ensures
            final(self).sb() == old(self).sb(),
            final(self).image().len() == old(self).image().len(),
            (name.spec_bytes().len() == 0 || name.spec_bytes().len() > FILENAME_LEN)
                ==> r == Err::<HashEntry, ImageError>(ImageError::InvalidFilename) && final(self).image() == old(self).image(),
    {
        let name_bytes = name_field(name)?;
        match find_entry(&mut self.drive, &self.superblock, &name_bytes) {
            Ok((_ptr, entry)) => {
                if entry.type_ != 1 {
                    return Err(ImageError::NotADirectory);
                }
                return Ok(entry);
            }
            Err(_) => {}
        }
        let dir_lba = alloc_blocks(&mut self.drive, &self.superblock, 1)?;
        let empty = empty_dentry();
        write_lba(&mut self.drive, dir_lba, &empty)?;
        let dir_ptr = write_hash_entry(&mut self.drive, &self.superblock, &name_bytes, 1, dir_lba, 0, 0, 0)?;
        let mut parent_link = LinkEntry { ptr: parent.link_ptr, size: parent.link_size };
        dir_add_child(&mut self.drive, &self.superblock, parent.start_block, &mut parent_link, dir_ptr)?;
        let entry = hash_ptr_read(&mut self.drive, &dir_ptr)?;
        Ok(entry)
    }

    /// The slot `n` slots after `ptr`, or `None` past the table.
    pub fn hash_ptr_add(&self, ptr: &HashPointer, n: u64) -> (r: Option<HashPointer>)
        requires
            ptr.offset + n <= u64::MAX,
            ptr.lba + (ptr.offset + n) / 6 <= u64::MAX,
        ensures
            ({
                let tmp = ptr.offset + n;
                let lba = ptr.lba + tmp / 6;
                if lba > div_ceil(self.sb().hashmap_size as int, 6) {
                    r is None
                } else {
                    r == Some(HashPointer { lba: lba as u64, offset: (tmp % 6) as u8 })
                }
            }),
    {
        let tmp = ptr.offset as u64 + n;
        let offset = (tmp % HASHES_PER_BLOCK) as u8;
        let lba = ptr.lba + (tmp / HASHES_PER_BLOCK);
        if lba > u64_div_ceil(self.superblock.hashmap_size, HASHES_PER_BLOCK) {
            None
        } else {
            Some(HashPointer { lba, offset })
        }
    }
}

} // verus!
