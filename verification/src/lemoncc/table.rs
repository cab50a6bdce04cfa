//! The hash table of an image: reading and writing entries, and probing for a name.

use vstd::prelude::*;
use crate::fs::hashtable::drive::StorageDrive;
use super::ImageError;
use super::io::{read_lba, write_lba};
use super::disk::{HashEntry, HashPointer, SuperBlock, FILENAME_LEN, HASHES_PER_BLOCK, get_entry, put_entry, splice};

verus! {

/// The 74 bytes of the entry that `ptr` points to.
pub open spec fn entry_bytes(sectors: Seq<[u8; 512]>, ptr: HashPointer) -> Seq<u8> {
    sectors[ptr.lba as int]@.subrange(ptr.offset * 74, ptr.offset * 74 + 74)
}

/// The pointer to slot `slot` of the table.
pub open spec fn slot_ptr(slot: int) -> HashPointer {
    HashPointer { lba: (1 + slot / 6) as u64, offset: (slot % 6) as u8 }
}

/// Reads the entry that `ptr` points to.
pub fn hash_ptr_read<D: StorageDrive>(drive: &mut D, ptr: &HashPointer) -> (r: Result<HashEntry, ImageError>)
    requires
        ptr.offset < 6,
    ensures
        final(drive).sectors() == old(drive).sectors(),
        r matches Ok(e) ==> ptr.lba < old(drive).sectors().len() && e.image() == entry_bytes(old(drive).sectors(), *ptr),
        r matches Err(e) ==> e == ImageError::Io,
        ptr.lba >= old(drive).sectors().len() ==> r is Err,
        D::answers_all() && ptr.lba < old(drive).sectors().len() ==> r is Ok,
{
    let block = read_lba(drive, ptr.lba)?;
    Ok(get_entry(&block, ptr.offset as usize))
}

/// Writes `entry` where `ptr` points, leaving the rest of the sector as it was.
pub fn hash_ptr_write<D: StorageDrive>(drive: &mut D, ptr: &HashPointer, entry: &HashEntry) -> (r: Result<(), ImageError>)
    requires
        ptr.offset < 6,
    ensures
        r is Ok ==> ptr.lba < old(drive).sectors().len() && final(drive).sectors().len() == old(drive).sectors().len()
            && (forall|l: int| 0 <= l < old(drive).sectors().len() && l != ptr.lba ==> #[trigger] final(drive).sectors()[l] == old(drive).sectors()[l])
            && final(drive).sectors()[ptr.lba as int]@ == splice(old(drive).sectors()[ptr.lba as int]@, ptr.offset * 74, entry.image()),
        r is Err ==> final(drive).sectors() == old(drive).sectors(),
        r matches Err(e) ==> e == ImageError::Io,
        ptr.lba >= old(drive).sectors().len() ==> r is Err,
        D::answers_all() && ptr.lba < old(drive).sectors().len() ==> r is Ok,
{
    let mut block = read_lba(drive, ptr.lba)?;
    put_entry(&mut block, ptr.offset as usize, entry);
    write_lba(drive, ptr.lba, &block)
}

/// What probing the table of `total` slots for `name` from slot `start` finds, having looked
/// at `probe` slots and remembered the first reusable one: an unused slot ends the chain (the
/// first reusable slot, or that one, is returned as free); a tombstone is remembered; a used
/// slot holding `name` is returned as found.
pub open spec fn probe_hash(sectors: Seq<[u8; 512]>, total: int, start: int, name: Seq<u8>, probe: int,
    first_free: Option<HashPointer>) -> Option<(HashPointer, bool)>
    decreases total - probe,
{
    if probe >= total || probe < 0 {
        None
    } else {
        let slot = (start + probe) % total;
        let ptr = slot_ptr(slot);
        let e = entry_bytes(sectors, ptr);
        if e[0] == 0 {
            Some((match first_free { Some(f) => f, None => ptr }, false))
        } else if e[0] == 0xFF {
            probe_hash(sectors, total, start, name, probe + 1, if first_free is None { Some(ptr) } else { first_free })
        } else if e[0] == 1 && e.subrange(2, 42) == name {
            Some((ptr, true))
        } else {
            probe_hash(sectors, total, start, name, probe + 1, first_free)
        }
    }
}

/// The first slot from `start` on whose entry is unused or a tombstone.
pub open spec fn probe_free(sectors: Seq<[u8; 512]>, total: int, start: int, probe: int) -> Option<HashPointer>
    decreases total - probe,
{
    if probe >= total || probe < 0 {
        None
    } else {
        let slot = (start + probe) % total;
        let e = entry_bytes(sectors, slot_ptr(slot));
        if e[0] == 0 || e[0] == 0xFF { Some(slot_ptr(slot)) } else { probe_free(sectors, total, start, probe + 1) }
    }
}

/// The superblock allows probing: a table with slots, whose slot arithmetic fits in 64 bits.
pub open spec fn table_ok(sb: SuperBlock) -> bool {
    0 < sb.hashmap_size && sb.hashmap_size * 2 <= u64::MAX
}

/// The FNV-1a hash of a name field.
pub open spec fn name_hash(name: Seq<u8>) -> u64 {
    crate::fs::hashtable::hash::fnv1a(name)
}

/// Finds a slot for `name`: the first unused or tombstoned slot from the name's hash on.
/// A table with no such slot is `TableFull`.
pub fn find_free_slot<D: StorageDrive>(drive: &mut D, sb: &SuperBlock, name: &[u8; FILENAME_LEN]) -> (r: Result<HashPointer, ImageError>)
    requires
        table_ok(*sb),
    ensures
        final(drive).sectors() == old(drive).sectors(),
        r matches Ok(p) ==> Some(p) == probe_free(old(drive).sectors(), sb.hashmap_size as int,
            (name_hash(name@) % sb.hashmap_size) as int, 0) && p.offset < 6,
        probe_free(old(drive).sectors(), sb.hashmap_size as int, (name_hash(name@) % sb.hashmap_size) as int, 0) is None
            ==> r is Err,
        r matches Err(e) ==> e == ImageError::Io || (e == ImageError::TableFull && probe_free(old(drive).sectors(),
            sb.hashmap_size as int, (name_hash(name@) % sb.hashmap_size) as int, 0) is None),
{
    let hash = crate::fs::hashtable::hash::name_to_hash(name);
    let total = sb.hashmap_size;
    let start = hash % total;
    let ghost s = drive.sectors();
    let mut probe: u64 = 0;
    while probe < total
        invariant
            drive.sectors() == s,
            s == old(drive).sectors(),
            total == sb.hashmap_size,
            table_ok(*sb),
            start < total,
            start == name_hash(name@) % total,
            probe <= total,
            probe_free(s, total as int, start as int, 0) == probe_free(s, total as int, start as int, probe as int),
        decreases total - probe,
    {
        let slot = (start + probe) % total;
        let ptr = HashPointer { lba: 1 + slot / HASHES_PER_BLOCK, offset: (slot % HASHES_PER_BLOCK) as u8 };
        proof {
            lemma_slot_in_table(slot as int, *sb);
        }
        let entry = hash_ptr_read(drive, &ptr)?;
        proof {
            assert(entry.image()[0] == entry.status);
        }
        if entry.status == 0 || entry.status == 0xFF {
            return Ok(ptr);
        }
        probe = probe + 1;
    }
    Err(ImageError::TableFull)
}

/// Finds the slot of `name`: where it is stored (`true`), or where it would go (`false`).
/// A table with neither is `TableFull`.
pub fn find_hash_slot<D: StorageDrive>(drive: &mut D, sb: &SuperBlock, name: &[u8; FILENAME_LEN]) -> (r: Result<(HashPointer, bool), ImageError>)
    requires
        table_ok(*sb),
    ensures
        final(drive).sectors() == old(drive).sectors(),
        r matches Ok(x) ==> Some(x) == probe_hash(old(drive).sectors(), sb.hashmap_size as int,
            (name_hash(name@) % sb.hashmap_size) as int, name@, 0, None) && x.0.offset < 6,
        probe_hash(old(drive).sectors(), sb.hashmap_size as int, (name_hash(name@) % sb.hashmap_size) as int, name@, 0, None) is None
            ==> r is Err,
        r matches Err(e) ==> e == ImageError::Io || (e == ImageError::TableFull && probe_hash(old(drive).sectors(),
            sb.hashmap_size as int, (name_hash(name@) % sb.hashmap_size) as int, name@, 0, None) is None),
        D::answers_all() && sb.spec_bitmap_start() <= old(drive).sectors().len() && probe_hash(old(drive).sectors(),
            sb.hashmap_size as int, (name_hash(name@) % sb.hashmap_size) as int, name@, 0, None) is Some ==> r is Ok,
{
    let hash = crate::fs::hashtable::hash::name_to_hash(name);
    let total = sb.hashmap_size;
    let start = hash % total;
    let ghost s = drive.sectors();
    let mut first_free: Option<HashPointer> = None;
    let mut probe: u64 = 0;
    while probe < total
        invariant
            drive.sectors() == s,
            s == old(drive).sectors(),
            total == sb.hashmap_size,
            table_ok(*sb),
            start < total,
            start == name_hash(name@) % total,
            probe <= total,
            probe_hash(s, total as int, start as int, name@, 0, None)
                == probe_hash(s, total as int, start as int, name@, probe as int, first_free),
            first_free matches Some(f) ==> f.offset < 6,
        decreases total - probe,
    {
        let slot = (start + probe) % total;
        let ptr = HashPointer { lba: 1 + slot / HASHES_PER_BLOCK, offset: (slot % HASHES_PER_BLOCK) as u8 };
        proof {
            lemma_slot_in_table(slot as int, *sb);
        }
        let entry = hash_ptr_read(drive, &ptr)?;
        proof {
            assert(entry.image()[0] == entry.status);
            assert(entry.image().subrange(2, 42) =~= entry.name@);
        }
        if entry.status == 0 {
            let p = match first_free { Some(f) => f, None => ptr };
            return Ok((p, false));
        }
        if entry.status == 0xFF {
            if first_free.is_none() {
                first_free = Some(ptr);
            }
            probe = probe + 1;
            continue;
        }
        if entry.status == 1 && names_equal(&entry.name, name) {
            return Ok((ptr, true));
        }
        probe = probe + 1;
    }
    Err(ImageError::TableFull)
}

/// The entry `write_hash_entry` stores: used, of the given type, with the given name, extent
/// and link.
pub open spec fn used_entry(name: [u8; FILENAME_LEN], type_: u8, start_block: u64, file_size: u64, link_ptr: u64, link_size: u64) -> HashEntry {
    HashEntry { status: 1, type_, name, start_block, file_size, link_ptr, link_size }
}

/// The probe for `name` in the table of `sb`.
pub open spec fn probe_name(sectors: Seq<[u8; 512]>, sb: SuperBlock, name: Seq<u8>) -> Option<(HashPointer, bool)> {
    probe_hash(sectors, sb.hashmap_size as int, (name_hash(name) % sb.hashmap_size) as int, name, 0, None)
}

/// Sector `lba` went from `old` to `new` by writing `t` at `off`, and no other sector changed.
pub open spec fn sector_spliced(old: Seq<[u8; 512]>, new: Seq<[u8; 512]>, lba: int, off: int, t: Seq<u8>) -> bool {
    &&& 0 <= lba < old.len()
    &&& new.len() == old.len()
    &&& forall|l: int| 0 <= l < old.len() && l != lba ==> #[trigger] new[l] == old[l]
    &&& new[lba]@ == splice(old[lba]@, off, t)
}

/// Stores a used entry for `name` in its slot (see [`find_hash_slot`]): over the entry that
/// holds the name, or in the slot where the name would go. Returns the slot.
pub fn write_hash_entry<D: StorageDrive>(drive: &mut D, sb: &SuperBlock, name: &[u8; FILENAME_LEN], type_: u8,
    start_block: u64, file_size: u64, link_ptr: u64, link_size: u64) -> (r: Result<HashPointer, ImageError>)
    requires
        table_ok(*sb),
    ensures
        r matches Ok(p) ==> (probe_name(old(drive).sectors(), *sb, name@) matches Some(x) && x.0 == p) && p.offset < 6
            && sector_spliced(old(drive).sectors(), final(drive).sectors(), p.lba as int, p.offset * 74,
                used_entry(*name, type_, start_block, file_size, link_ptr, link_size).image()),
        r is Err ==> final(drive).sectors() == old(drive).sectors(),
        r matches Err(e) ==> e == ImageError::Io || (e == ImageError::TableFull && probe_name(old(drive).sectors(), *sb, name@) is None),
        probe_name(old(drive).sectors(), *sb, name@) is None ==> r is Err,
        D::answers_all() && sb.spec_bitmap_start() <= old(drive).sectors().len()
            && probe_name(old(drive).sectors(), *sb, name@) is Some ==> r is Ok,
{
    let (ptr, _exists) = find_hash_slot(drive, sb, name)?;
    proof {
        let total = sb.hashmap_size as int;
        lemma_probe_in_table(old(drive).sectors(), total, (name_hash(name@) % sb.hashmap_size) as int, name@, 0, None);
        let k = choose|slot: int| 0 <= slot < total && ptr == slot_ptr(slot);
        lemma_slot_in_table(k, *sb);
    }
    let entry = HashEntry { status: 1, type_, name: *name, start_block, file_size, link_ptr, link_size };
    hash_ptr_write(drive, &ptr, &entry)?;
    Ok(ptr)
}

/// Marks the entry at `ptr` as a tombstone, leaving its other bytes as they were.
pub fn tombstone<D: StorageDrive>(drive: &mut D, ptr: &HashPointer) -> (r: Result<(), ImageError>)
    requires
        ptr.offset < 6,
    ensures
        r is Ok ==> sector_spliced(old(drive).sectors(), final(drive).sectors(), ptr.lba as int, ptr.offset * 74, seq![0xFFu8]),
        r is Err ==> final(drive).sectors() == old(drive).sectors(),
        r matches Err(e) ==> e == ImageError::Io,
        ptr.lba >= old(drive).sectors().len() ==> r is Err,
{
    let mut entry = hash_ptr_read(drive, ptr)?;
    let ghost before = entry.image();
    entry.status = 0xFF;
    let ghost s0 = drive.sectors();
    let r = hash_ptr_write(drive, ptr, &entry);
    proof {
        if r is Ok {
            let off = ptr.offset * 74;
            let old_sector = s0[ptr.lba as int]@;
            assert(entry.image() =~= before.update(0, 0xFFu8));
            assert(splice(old_sector, off, entry.image()) =~= splice(old_sector, off, seq![0xFFu8]));
        }
    }
    r
}

/// The slot and entry that hold `name`; a name the table does not hold is `NotFound`.
pub fn find_entry<D: StorageDrive>(drive: &mut D, sb: &SuperBlock, name: &[u8; FILENAME_LEN]) -> (r: Result<(HashPointer, HashEntry), ImageError>)
    requires
        table_ok(*sb),
    ensures
        final(drive).sectors() == old(drive).sectors(),
        r matches Ok((p, e)) ==> probe_name(old(drive).sectors(), *sb, name@) == Some((p, true))
            && p.offset < 6 && e.image() == entry_bytes(old(drive).sectors(), p),
        r matches Err(e) ==> e == ImageError::Io
            || (e == ImageError::TableFull && probe_name(old(drive).sectors(), *sb, name@) is None)
            || (e == ImageError::NotFound && (probe_name(old(drive).sectors(), *sb, name@) matches Some(x) && !x.1)),
        !(probe_name(old(drive).sectors(), *sb, name@) matches Some(x) && x.1) ==> r is Err,
        D::answers_all() && sb.spec_bitmap_start() <= old(drive).sectors().len()
            && (probe_name(old(drive).sectors(), *sb, name@) matches Some(x) && x.1) ==> r is Ok,
        D::answers_all() && sb.spec_bitmap_start() <= old(drive).sectors().len()
            && (probe_name(old(drive).sectors(), *sb, name@) matches Some(x) && !x.1)
            ==> r == Err::<(HashPointer, HashEntry), ImageError>(ImageError::NotFound),
{
    let (ptr, exists) = find_hash_slot(drive, sb, name)?;
    if !exists {
        return Err(ImageError::NotFound);
    }
    proof {
        let total = sb.hashmap_size as int;
        lemma_probe_in_table(old(drive).sectors(), total, (name_hash(name@) % sb.hashmap_size) as int, name@, 0, None);
        let k = choose|slot: int| 0 <= slot < total && ptr == slot_ptr(slot);
        lemma_slot_in_table(k, *sb);
    }
    let entry = hash_ptr_read(drive, &ptr)?;
    Ok((ptr, entry))
}

/// Whether two name fields hold the same bytes.
pub fn names_equal(a: &[u8; FILENAME_LEN], b: &[u8; FILENAME_LEN]) -> (r: bool)
    ensures
        r == (a@ == b@),
{
    let mut i: usize = 0;
    while i < FILENAME_LEN
        invariant
            i <= FILENAME_LEN,
            forall|j: int| 0 <= j < i ==> a@[j] == b@[j],
        decreases FILENAME_LEN - i,
    {
        if a[i] != b[i] {
            return false;
        }
        i = i + 1;
    }
    assert(a@ =~= b@);
    true
}

/// Probing reads only the entries of the table's slots: two images that agree on them probe
/// alike.
pub proof fn lemma_probe_frame(s: Seq<[u8; 512]>, t: Seq<[u8; 512]>, total: int, start: int, name: Seq<u8>,
    probe: int, ff: Option<HashPointer>)
    requires
        forall|slot: int| 0 <= slot < total ==> #[trigger] entry_bytes(s, slot_ptr(slot)) == entry_bytes(t, slot_ptr(slot)),
    ensures
        probe_hash(s, total, start, name, probe, ff) == probe_hash(t, total, start, name, probe, ff),
    decreases total - probe,
{
    if 0 <= probe < total {
        let slot = (start + probe) % total;
        assert(0 <= slot < total);
        let e = entry_bytes(s, slot_ptr(slot));
        if e[0] == 0xFF {
            lemma_probe_frame(s, t, total, start, name, probe + 1,
                if ff is None { Some(slot_ptr(slot)) } else { ff });
        } else {
            lemma_probe_frame(s, t, total, start, name, probe + 1, ff);
        }
    }
}

/// After a used entry holding `name` is written in the slot that probing for `name` offered as
/// free, probing for `name` finds it there.
/// A probe reads only the status byte and the name of each slot: tables that agree on those
/// are probed alike.
pub proof fn lemma_probe_same_keys(s: Seq<[u8; 512]>, t: Seq<[u8; 512]>, total: int, start: int, name: Seq<u8>,
    probe: int, ff: Option<HashPointer>)
    requires
        forall|slot: int| 0 <= slot < total ==> (#[trigger] entry_bytes(s, slot_ptr(slot)))[0] == entry_bytes(t, slot_ptr(slot))[0]
            && entry_bytes(s, slot_ptr(slot)).subrange(2, 42) == entry_bytes(t, slot_ptr(slot)).subrange(2, 42),
    ensures
        probe_hash(s, total, start, name, probe, ff) == probe_hash(t, total, start, name, probe, ff),
    decreases total - probe,
{
    if 0 <= probe < total {
        let slot = (start + probe) % total;
        assert(0 <= slot < total);
        let e = entry_bytes(s, slot_ptr(slot));
        if e[0] == 0xFF {
            lemma_probe_same_keys(s, t, total, start, name, probe + 1,
                if ff is None { Some(slot_ptr(slot)) } else { ff });
        } else {
            lemma_probe_same_keys(s, t, total, start, name, probe + 1, ff);
        }
    }
}

pub proof fn lemma_probe_finds_written(s: Seq<[u8; 512]>, t: Seq<[u8; 512]>, total: int, start: int, name: Seq<u8>,
    probe: int, p: HashPointer)
    requires
        0 < total <= u64::MAX,
        0 <= start,
        probe_hash(s, total, start, name, probe, None) == Some((p, false)),
        entry_bytes(t, p)[0] == 1,
        entry_bytes(t, p).subrange(2, 42) == name,
        forall|slot: int| 0 <= slot < total && slot_ptr(slot) != p
            ==> #[trigger] entry_bytes(t, slot_ptr(slot)) == entry_bytes(s, slot_ptr(slot)),
    ensures
        probe_hash(t, total, start, name, probe, None) == Some((p, true)),
    decreases total - probe,
{
    let slot = (start + probe) % total;
    let ptr = slot_ptr(slot);
    let e = entry_bytes(s, ptr);
    if ptr != p {
        assert(entry_bytes(t, ptr) == e);
        if e[0] == 0 {
            assert(false);
        } else if e[0] == 0xFF {
            // The first tombstone is what the probe offers.
            lemma_probe_tombstone_offered(s, total, start, name, probe + 1, ptr);
            assert(false);
        } else {
            lemma_probe_finds_written(s, t, total, start, name, probe + 1, p);
        }
    }
}

/// Once a tombstone is remembered, the probe offers it (or finds the name).
proof fn lemma_probe_tombstone_offered(s: Seq<[u8; 512]>, total: int, start: int, name: Seq<u8>, probe: int,
    f: HashPointer)
    ensures
        probe_hash(s, total, start, name, probe, Some(f)) matches Some(x) ==> (x.0 == f) || x.1,
    decreases total - probe,
{
    if 0 <= probe < total {
        lemma_probe_tombstone_offered(s, total, start, name, probe + 1, f);
    }
}

/// Writing a used entry of another name in a slot that held no used entry leaves what probing
/// for `m` finds.
pub proof fn lemma_probe_keeps_found(s: Seq<[u8; 512]>, t: Seq<[u8; 512]>, total: int, start: int, m: Seq<u8>,
    probe: int, ff: Option<HashPointer>, gg: Option<HashPointer>, p: HashPointer, q: HashPointer)
    requires
        probe_hash(s, total, start, m, probe, ff) == Some((q, true)),
        entry_bytes(s, p)[0] == 0 || entry_bytes(s, p)[0] == 0xFF,
        entry_bytes(t, p)[0] == 1,
        entry_bytes(t, p).subrange(2, 42) != m,
        forall|slot: int| 0 <= slot < total && slot_ptr(slot) != p
            ==> #[trigger] entry_bytes(t, slot_ptr(slot)) == entry_bytes(s, slot_ptr(slot)),
    ensures
        probe_hash(t, total, start, m, probe, gg) == Some((q, true)),
    decreases total - probe,
{
    if 0 <= probe < total {
        let slot = (start + probe) % total;
        let ptr = slot_ptr(slot);
        let e = entry_bytes(s, ptr);
        if ptr == p {
            if e[0] == 0 {
                assert(false);
            }
            lemma_probe_keeps_found(s, t, total, start, m, probe + 1,
                if ff is None { Some(ptr) } else { ff }, gg, p, q);
        } else {
            assert(entry_bytes(t, ptr) == e);
            if e[0] == 0xFF {
                lemma_probe_keeps_found(s, t, total, start, m, probe + 1,
                    if ff is None { Some(ptr) } else { ff }, if gg is None { Some(ptr) } else { gg }, p, q);
            } else if !(e[0] == 1 && e.subrange(2, 42) == m) {
                lemma_probe_keeps_found(s, t, total, start, m, probe + 1, ff, gg, p, q);
            }
        }
    }
}

/// The slot a probe for a free slot offers is a slot of the table, unused or a tombstone.
pub proof fn lemma_probe_free_slot(s: Seq<[u8; 512]>, total: int, start: int, probe: int)
    ensures
        probe_free(s, total, start, probe) matches Some(p) ==> (exists|slot: int| 0 <= slot < total && p == slot_ptr(slot))
            && (entry_bytes(s, p)[0] == 0 || entry_bytes(s, p)[0] == 0xFF),
    decreases total - probe,
{
    if 0 <= probe < total {
        let slot = (start + probe) % total;
        assert(0 <= slot < total);
        lemma_probe_free_slot(s, total, start, probe + 1);
    }
}

/// A found entry stays found when another slot changes between states that the probe passes
/// over alike: in use by another name, or a tombstone.
pub proof fn lemma_probe_keeps_found_past(s: Seq<[u8; 512]>, t: Seq<[u8; 512]>, total: int, start: int, m: Seq<u8>,
    probe: int, ff: Option<HashPointer>, gg: Option<HashPointer>, p: HashPointer, q: HashPointer)
    requires
        probe_hash(s, total, start, m, probe, ff) == Some((q, true)),
        entry_bytes(s, p)[0] != 0,
        entry_bytes(t, p)[0] != 0,
        !(entry_bytes(s, p)[0] == 1 && entry_bytes(s, p).subrange(2, 42) == m),
        !(entry_bytes(t, p)[0] == 1 && entry_bytes(t, p).subrange(2, 42) == m),
        forall|slot: int| 0 <= slot < total && slot_ptr(slot) != p
            ==> #[trigger] entry_bytes(t, slot_ptr(slot)) == entry_bytes(s, slot_ptr(slot)),
    ensures
        probe_hash(t, total, start, m, probe, gg) == Some((q, true)),
    decreases total - probe,
{
    if 0 <= probe < total {
        let slot = (start + probe) % total;
        let ptr = slot_ptr(slot);
        let e = entry_bytes(s, ptr);
        let f = entry_bytes(t, ptr);
        let ff2 = if e[0] == 0xFF { if ff is None { Some(ptr) } else { ff } } else { ff };
        let gg2 = if f[0] == 0xFF { if gg is None { Some(ptr) } else { gg } } else { gg };
        if ptr != p {
            assert(f == e);
        }
        if ptr == p || !(e[0] == 1 && e.subrange(2, 42) == m) {
            lemma_probe_keeps_found_past(s, t, total, start, m, probe + 1, ff2, gg2, p, q);
        }
    }
}

/// What probing offers or finds is one of the table's slots.
pub proof fn lemma_probe_in_table(s: Seq<[u8; 512]>, total: int, start: int, name: Seq<u8>, probe: int,
    ff: Option<HashPointer>)
    requires
        total > 0,
        ff matches Some(f) ==> exists|slot: int| 0 <= slot < total && f == slot_ptr(slot),
    ensures
        probe_hash(s, total, start, name, probe, ff) matches Some(x)
            ==> exists|slot: int| 0 <= slot < total && x.0 == slot_ptr(slot),
    decreases total - probe,
{
    if 0 <= probe < total {
        let slot = (start + probe) % total;
        assert(0 <= slot < total);
        let e = entry_bytes(s, slot_ptr(slot));
        if e[0] == 0xFF {
            lemma_probe_in_table(s, total, start, name, probe + 1, if ff is None { Some(slot_ptr(slot)) } else { ff });
        } else {
            lemma_probe_in_table(s, total, start, name, probe + 1, ff);
        }
    }
}

/// A slot of the table lies in its sectors, before the bitmap.
pub proof fn lemma_slot_in_table(slot: int, sb: SuperBlock)
    requires
        0 <= slot < sb.hashmap_size,
    ensures
        1 <= slot_ptr(slot).lba < sb.spec_bitmap_start(),
        slot_ptr(slot).offset < 6,
{
    let n = sb.hashmap_size as int;
    assert(slot / 6 < (n + 5) / 6) by (nonlinear_arith)
        requires 0 <= slot < n;
    assert(slot / 6 >= 0) by (nonlinear_arith) requires slot >= 0;
    assert(slot % 6 < 6) by (nonlinear_arith) requires slot >= 0;
}

/// Writing `t` over the 74 bytes of the slot `p` points to changes that entry to `t` and no
/// other entry.
pub proof fn lemma_entry_after_splice(s: Seq<[u8; 512]>, u: Seq<[u8; 512]>, p: HashPointer, t: Seq<u8>, q: HashPointer)
    requires
        sector_spliced(s, u, p.lba as int, p.offset * 74, t),
        t.len() == 74,
        p.offset < 6,
        q.offset < 6,
        q.lba < s.len(),
    ensures
        q == p ==> entry_bytes(u, q) == t,
        q != p ==> entry_bytes(u, q) == entry_bytes(s, q),
{
    let b = s[p.lba as int]@;
    assert(b.len() == 512);
    if q.lba == p.lba {
        let nb = u[p.lba as int]@;
        assert(nb == super::disk::splice(b, p.offset * 74, t));
        if q == p {
            assert(entry_bytes(u, q) =~= t);
        } else {
            assert(q.offset != p.offset);
            assert(entry_bytes(u, q) =~= entry_bytes(s, q));
        }
    }
}

/// A slot that probing offers as free is unused or a tombstone.
pub proof fn lemma_probe_offers_free(s: Seq<[u8; 512]>, total: int, start: int, name: Seq<u8>, probe: int,
    ff: Option<HashPointer>, p: HashPointer)
    requires
        ff matches Some(f) ==> entry_bytes(s, f)[0] == 0xFF,
        probe_hash(s, total, start, name, probe, ff) == Some((p, false)),
    ensures
        entry_bytes(s, p)[0] == 0 || entry_bytes(s, p)[0] == 0xFF,
    decreases total - probe,
{
    if 0 <= probe < total {
        let slot = (start + probe) % total;
        let e = entry_bytes(s, slot_ptr(slot));
        if e[0] == 0xFF {
            lemma_probe_offers_free(s, total, start, name, probe + 1, if ff is None { Some(slot_ptr(slot)) } else { ff }, p);
        } else if e[0] != 0 && !(e[0] == 1 && e.subrange(2, 42) == name) {
            lemma_probe_offers_free(s, total, start, name, probe + 1, ff, p);
        }
    }
}

/// A slot that a probe finds holds a used entry of the name.
pub proof fn lemma_probe_found_named(s: Seq<[u8; 512]>, total: int, start: int, name: Seq<u8>, probe: int,
    ff: Option<HashPointer>, p: HashPointer)
    requires
        probe_hash(s, total, start, name, probe, ff) == Some((p, true)),
    ensures
        entry_bytes(s, p)[0] == 1,
        entry_bytes(s, p).subrange(2, 42) == name,
    decreases total - probe,
{
    if 0 <= probe < total {
        let slot = (start + probe) % total;
        let e = entry_bytes(s, slot_ptr(slot));
        if e[0] == 0xFF {
            lemma_probe_found_named(s, total, start, name, probe + 1, if ff is None { Some(slot_ptr(slot)) } else { ff }, p);
        } else if e[0] != 0 && !(e[0] == 1 && e.subrange(2, 42) == name) {
            lemma_probe_found_named(s, total, start, name, probe + 1, ff, p);
        }
    }
}

pub proof fn lemma_probe_found_used(s: Seq<[u8; 512]>, total: int, start: int, name: Seq<u8>, probe: int,
    ff: Option<HashPointer>, p: HashPointer)
    requires
        probe_hash(s, total, start, name, probe, ff) == Some((p, true)),
    ensures
        entry_bytes(s, p)[0] == 1,
    decreases total - probe,
{
    if 0 <= probe < total {
        let slot = (start + probe) % total;
        let e = entry_bytes(s, slot_ptr(slot));
        if e[0] == 0xFF {
            lemma_probe_found_used(s, total, start, name, probe + 1, if ff is None { Some(slot_ptr(slot)) } else { ff }, p);
        } else if e[0] != 0 && !(e[0] == 1 && e.subrange(2, 42) == name) {
            lemma_probe_found_used(s, total, start, name, probe + 1, ff, p);
        }
    }
}

} // verus!
