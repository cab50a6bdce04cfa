//! The hash table on a drive: reading and writing its entries, probing it for a free slot or
//! for a name, and renaming and removing entries. The byte layout is that of the image tool
//! (see [`crate::lemoncc::disk`]): 74-byte entries, six to a sector from sector 1 on.

use vstd::prelude::*;
use super::{FILENAME_LEN, HashFsError};
use super::drive::StorageDrive;
use super::hash::{fnv1a, name_to_hash};
use super::headers::{HashEntry, HashPointer, HashStatus, FileType, LinkEntry, HASHES_PER_BLOCK, spec_file_type};
use super::helpers::{FileName, File, Directory};
use crate::lemoncc::disk as raw;
use crate::lemoncc::disk::{u64_at, splice};
use crate::lemoncc::table::{entry_bytes, sector_spliced};

verus! {

/// The status that a status byte stands for: 0 unused, 1 used, 255 a tombstone; none else.
pub open spec fn status_of(b: u8) -> Option<HashStatus> {
    if b == 0 {
        Some(HashStatus::Unused)
    } else if b == 1 {
        Some(HashStatus::Used)
    } else if b == 255 {
        Some(HashStatus::Tombstone)
    } else {
        None
    }
}

/// The entry `e` is what the 74 bytes `b` hold.
pub open spec fn entry_holds(e: HashEntry, b: Seq<u8>) -> bool {
    &&& status_of(b[0]) == Some(e.status)
    &&& e.type_ == spec_file_type(b[1])
    &&& e.name@ == b.subrange(2, 42)
    &&& e.start_block == u64_at(b, 42)
    &&& e.file_size == u64_at(b, 50)
    &&& e.link == (LinkEntry { ptr: u64_at(b, 58), size: u64_at(b, 66) })
}

/// The bytes of an entry: status, kind, name, first block, size and link.
pub open spec fn entry_image(e: HashEntry) -> Seq<u8> {
    raw_entry(e).image()
}

/// The bytes of an entry hold that entry: writing an entry and reading it back gives it.
pub proof fn lemma_entry_image_holds(e: HashEntry)
    ensures
        entry_image(e).len() == 74,
        entry_holds(e, entry_image(e)),
{
    raw::lemma_entry_fields(raw_entry(e));
}

/// The 74 bytes at `off` of a sector into which `t` was spliced there are `t`.
pub proof fn lemma_spliced_bytes(s: Seq<u8>, off: int, t: Seq<u8>)
    requires
        0 <= off,
        off + t.len() <= s.len(),
    ensures
        splice(s, off, t).subrange(off, off + t.len()) == t,
        splice(s, off, t).len() == s.len(),
{
    assert(splice(s, off, t).subrange(off, off + t.len()) =~= t);
}

/// The entry in the byte-level form of the image tool.
pub open spec fn raw_entry(e: HashEntry) -> raw::HashEntry {
    raw::HashEntry {
        status: match e.status { HashStatus::Unused => 0u8, HashStatus::Used => 1u8, HashStatus::Tombstone => 255u8 },
        type_: match e.type_ { FileType::File => 0u8, FileType::Directory => 1u8, FileType::Unknown => 2u8 },
        name: e.name,
        start_block: e.start_block,
        file_size: e.file_size,
        link_ptr: e.link.ptr,
        link_size: e.link.size,
    }
}

/// The entry in the byte-level form of the image tool.
fn to_raw(e: &HashEntry) -> (r: raw::HashEntry)
    ensures
        r == raw_entry(*e),
{
    raw::HashEntry {
        status: e.status.as_byte(),
        type_: e.type_.as_byte(),
        name: e.name,
        start_block: e.start_block,
        file_size: e.file_size,
        link_ptr: e.link.ptr,
        link_size: e.link.size,
    }
}

/// The entry that a byte-level entry holds; a status byte other than 0, 1 and 255 holds none.
fn from_raw(r: &raw::HashEntry) -> (e: Option<HashEntry>)
    ensures
        status_of(r.status) is None ==> e is None,
        status_of(r.status) is Some ==> (e matches Some(x) && entry_holds(x, r.image())),
{
    proof { raw::lemma_entry_fields(*r); }
    let status = if r.status == 0 {
        HashStatus::Unused
    } else if r.status == 1 {
        HashStatus::Used
    } else if r.status == 255 {
        HashStatus::Tombstone
    } else {
        return None;
    };
    let type_ = FileType::from(r.type_);
    let e = HashEntry {
        status,
        type_,
        name: r.name,
        start_block: r.start_block,
        file_size: r.file_size,
        link: LinkEntry { ptr: r.link_ptr, size: r.link_size },
    };
    proof {
        let im = r.image();
        assert(im.subrange(2, 42) == r.name@);
        assert(raw::entry_link(im) == (raw::LinkEntry { ptr: r.link_ptr, size: r.link_size }));
    }
    Some(e)
}

/// Reads sector `lba`.
fn read_sector<D: StorageDrive>(drive: &mut D, lba: u64) -> (r: Result<[u8; 512], HashFsError>)
    ensures
        final(drive).sectors() == old(drive).sectors(),
        r matches Ok(b) ==> lba < old(drive).sectors().len() && b == old(drive).sectors()[lba as int],
        r matches Err(e) ==> e == HashFsError::IO,
        lba >= old(drive).sectors().len() ==> r is Err,
        D::answers_all() && lba < old(drive).sectors().len() ==> r is Ok,
{
    match drive.read_sector(lba) {
        Ok(b) => Ok(b),
        Err(_) => Err(HashFsError::IO),
    }
}

impl HashPointer {
    /// The entry the pointer points to. A slot whose status byte is none of unused, used and
    /// tombstone cannot be read, and is an I/O error.
    pub fn read<D: StorageDrive>(&self, drive: &mut D) -> (r: Result<HashEntry, HashFsError>)
        requires
            self.offset < HASHES_PER_BLOCK,
        ensures
            final(drive).sectors() == old(drive).sectors(),
            r matches Ok(e) ==> self.lba < old(drive).sectors().len()
                && entry_holds(e, entry_bytes(old(drive).sectors(), image_ptr(*self))),
            self.lba < old(drive).sectors().len() && status_of(entry_bytes(old(drive).sectors(), image_ptr(*self))[0]) is None
                ==> r is Err,
            D::answers_all() && self.lba < old(drive).sectors().len()
                && status_of(entry_bytes(old(drive).sectors(), image_ptr(*self))[0]) is Some ==> r is Ok,
            r matches Err(e) ==> e == HashFsError::IO,
    {
        let block = read_sector(drive, self.lba)?;
        let e = raw::get_entry(&block, self.offset as usize);
        proof {
            raw::lemma_entry_fields(e);
            assert(e.image() == entry_bytes(old(drive).sectors(), image_ptr(*self)));
        }
        match from_raw(&e) {
            Some(x) => Ok(x),
            None => Err(HashFsError::IO),
        }
    }

    /// Writes `entry` in the slot the pointer points to, leaving the rest of its sector.
    pub fn write<D: StorageDrive>(&mut self, drive: &mut D, entry: HashEntry) -> (r: Result<(), HashFsError>)
        requires
            old(self).offset < HASHES_PER_BLOCK,
        ensures
            *final(self) == *old(self),
            r is Ok ==> sector_spliced(old(drive).sectors(), final(drive).sectors(), old(self).lba as int,
                old(self).offset * 74, entry_image(entry)),
            r is Err ==> final(drive).sectors() == old(drive).sectors(),
            r matches Err(e) ==> e == HashFsError::IO,
    {
        let mut block = read_sector(drive, self.lba)?;
        let raw_e = to_raw(&entry);
        raw::put_entry(&mut block, self.offset as usize, &raw_e);
        match drive.write_sector(self.lba, &block) {
            Ok(()) => Ok(()),
            Err(_) => Err(HashFsError::IO),
        }
    }
}

/// The pointer in the byte-level form of the image tool.
pub open spec fn image_ptr(p: HashPointer) -> raw::HashPointer {
    raw::HashPointer { lba: p.lba, offset: p.offset }
}

/// The number of slots of the table, as the superblock in sector 0 records it.
pub open spec fn table_slots(s: Seq<[u8; 512]>) -> u64 {
    u64_at(s[0]@, 18)
}

/// Reads the number of slots of the table from the superblock.
fn read_table_slots<D: StorageDrive>(drive: &mut D) -> (r: Result<u64, HashFsError>)
    ensures
        final(drive).sectors() == old(drive).sectors(),
        r matches Ok(n) ==> old(drive).sectors().len() > 0 && n == table_slots(old(drive).sectors()),
        r matches Err(e) ==> e == HashFsError::IO,
{
    let b = read_sector(drive, 0)?;
    Ok(raw::get_u64(&b, 18))
}

/// Slot `i` of the probe that starts at slot `start` of a table of `n` slots: `i` slots further
/// on, without wrapping around; none past sector `n / 6` of the table.
pub open spec fn probe_slot(start: int, n: int, i: int) -> Option<HashPointer> {
    let tmp = start % 6 + i;
    let lba = 1 + start / 6 + tmp / 6;
    if lba > n / 6 {
        None
    } else {
        Some(HashPointer { lba: lba as u64, offset: (tmp % 6) as u8 })
    }
}

/// The status byte of the slot `p` points to.
pub open spec fn status_byte(s: Seq<[u8; 512]>, p: HashPointer) -> u8 {
    entry_bytes(s, image_ptr(p))[0]
}

/// The first unused or tombstoned slot of the probe from `start`, looking from step `i` on.
pub open spec fn free_probe(s: Seq<[u8; 512]>, start: int, n: int, i: int) -> Option<HashPointer>
    decreases n - i,
{
    if i < 0 || i >= n {
        None
    } else {
        match probe_slot(start, n, i) {
            None => None,
            Some(p) => if status_byte(s, p) == 0 || status_byte(s, p) == 255 { Some(p) } else { free_probe(s, start, n, i + 1) },
        }
    }
}

/// Slot `i` of the probe from `start`, as the pointer arithmetic computes it.
fn probe_at(start: &HashPointer, n: u64, i: u64) -> (r: Option<HashPointer>)
    requires
        start.offset < 6,
        1 <= start.lba <= 1 + n / 6,
        i < n,
        n <= u64::MAX - 6,
    ensures
        r == probe_slot((start.lba - 1) * 6 + start.offset, n as int, i as int),
        r matches Some(p) ==> p.offset < 6,
{
    let ghost idx = (start.lba - 1) * 6 + start.offset;
    proof {
        assert(idx % 6 == start.offset && idx / 6 == start.lba - 1) by (nonlinear_arith)
            requires idx == (start.lba - 1) * 6 + start.offset, start.offset < 6, start.lba >= 1;
        assert(start.lba + (start.offset + i) / 6 <= u64::MAX) by (nonlinear_arith)
            requires start.lba <= 1 + n / 6, start.offset < 6, i < n, n <= u64::MAX - 6;
    }
    start.add(n / 6, i)
}

/// The first unused or tombstoned slot of the probe for `name`: from the name's slot on,
/// without wrapping around. None is `DiskFull`; a table of no slots (or of more slots than
/// 64-bit slot arithmetic can count), or a slot that cannot be read, is an I/O error.
pub fn find_free_slot<D: StorageDrive>(drive: &mut D, name: &FileName) -> (r: Result<HashPointer, HashFsError>)
    ensures
        final(drive).sectors() == old(drive).sectors(),
        r matches Ok(p) ==> ({
            let s = old(drive).sectors();
            let n = table_slots(s);
            n > 0 && p.offset < 6 && free_probe(s, (fnv1a(name.0@) % n) as int, n as int, 0) == Some(p)
        }),
        r == Err::<HashPointer, HashFsError>(HashFsError::DiskFull) ==> ({
            let s = old(drive).sectors();
            let n = table_slots(s);
            0 < n <= u64::MAX - 6 && free_probe(s, (fnv1a(name.0@) % n) as int, n as int, 0) is None
        }),
        r matches Err(e) ==> e == HashFsError::IO || e == HashFsError::DiskFull,
{
    let ghost s = drive.sectors();
    let hashes = read_table_slots(drive)?;
    if hashes == 0 || hashes > u64::MAX - 6 {
        return Err(HashFsError::IO);
    }
    let hash = name_to_hash(&name.0);
    let start = HashPointer::new(hash % hashes);
    let ghost st = (hash % hashes) as int;
    proof {
        assert(start.lba <= 1 + hashes / 6) by (nonlinear_arith)
            requires start.lba == 1 + (hash % hashes) / 6, hash % hashes < hashes;
        assert((start.lba - 1) * 6 + start.offset == st) by (nonlinear_arith)
            requires start.lba == 1 + (hash % hashes) / 6, start.offset == (hash % hashes) % 6, st == hash % hashes;
    }
    let mut i: u64 = 0;
    while i < hashes
        invariant
            drive.sectors() == s,
            s == old(drive).sectors(),
            hashes == table_slots(s),
            0 < hashes <= u64::MAX - 6,
            start.offset < 6,
            1 <= start.lba <= 1 + hashes / 6,
            (start.lba - 1) * 6 + start.offset == st,
            st == fnv1a(name.0@) % hashes,
            i <= hashes,
            free_probe(s, st, hashes as int, 0) == free_probe(s, st, hashes as int, i as int),
        decreases hashes - i,
    {
        let ptr = match probe_at(&start, hashes, i) {
            Some(p) => p,
            None => {
                return Err(HashFsError::DiskFull);
            }
        };
        let entry = ptr.read(drive)?;
        proof {
            assert(status_of(status_byte(s, ptr)) == Some(entry.status));
        }
        if entry.status == HashStatus::Unused || entry.status == HashStatus::Tombstone {
            return Ok(ptr);
        }
        i = i + 1;
    }
    Err(HashFsError::DiskFull)
}

/// What the probe for `name`, which hashes to `h`, finds from step `i` on, having found the
/// first match `first` and `count` more: it stops at an unused slot, or at an entry whose name
/// hashes to something else; tombstones and entries of other names are passed over.
pub open spec fn scan_probe(s: Seq<[u8; 512]>, name: Seq<u8>, h: u64, start: int, n: int, i: int,
    first: Option<HashPointer>, count: int) -> Option<(HashPointer, int)>
    decreases n - i,
{
    let done = match first { Some(p) => Some((p, count)), None => None };
    if i < 0 || i >= n {
        done
    } else {
        match probe_slot(start, n, i) {
            None => done,
            Some(p) => {
                let b = entry_bytes(s, image_ptr(p));
                if b[0] == 0 {
                    done
                } else if b[0] == 255 {
                    scan_probe(s, name, h, start, n, i + 1, first, count)
                } else if fnv1a(b.subrange(2, 42)) != h {
                    done
                } else if b.subrange(2, 42) != name {
                    scan_probe(s, name, h, start, n, i + 1, first, count)
                } else if first is None {
                    scan_probe(s, name, h, start, n, i + 1, Some(p), count)
                } else {
                    scan_probe(s, name, h, start, n, i + 1, first, count + 1)
                }
            },
        }
    }
}

/// The entries of `name` along its probe (see [`scan_probe`]): the first one's slot and how
/// many more there are. None found is `FileNotFound`; a table of no slots (or of more than
/// 64-bit slot arithmetic can count), or a slot that cannot be read, is an I/O error.
pub fn scan<D: StorageDrive>(drive: &mut D, name: &FileName) -> (r: Result<(HashPointer, u64), HashFsError>)
    ensures
        final(drive).sectors() == old(drive).sectors(),
        r matches Ok((p, c)) ==> ({
            let s = old(drive).sectors();
            let n = table_slots(s);
            0 < n <= u64::MAX - 6 && p.offset < 6 && p.lba <= n / 6 && c < n
                && scan_probe(s, name.0@, fnv1a(name.0@), (fnv1a(name.0@) % n) as int, n as int, 0, None, 0) == Some((p, c as int))
        }),
        r == Err::<(HashPointer, u64), HashFsError>(HashFsError::FileNotFound) ==> ({
            let s = old(drive).sectors();
            let n = table_slots(s);
            scan_probe(s, name.0@, fnv1a(name.0@), (fnv1a(name.0@) % n) as int, n as int, 0, None, 0) is None
        }),
        r matches Err(e) ==> e == HashFsError::IO || e == HashFsError::FileNotFound,
{
    let ghost s = drive.sectors();
    let hashes = read_table_slots(drive)?;
    if hashes == 0 || hashes > u64::MAX - 6 {
        return Err(HashFsError::IO);
    }
    let hash = name_to_hash(&name.0);
    let start = HashPointer::new(hash % hashes);
    let ghost st = (hash % hashes) as int;
    let ghost total = scan_probe(s, name.0@, hash, st, hashes as int, 0, None, 0);
    proof {
        assert(start.lba <= 1 + hashes / 6) by (nonlinear_arith)
            requires start.lba == 1 + (hash % hashes) / 6, hash % hashes < hashes;
        assert((start.lba - 1) * 6 + start.offset == st) by (nonlinear_arith)
            requires start.lba == 1 + (hash % hashes) / 6, start.offset == (hash % hashes) % 6, st == hash % hashes;
    }
    let mut hash_start: Option<HashPointer> = None;
    let mut n: u64 = 0;
    let mut i: u64 = 0;
    while i < hashes
        invariant_except_break
            total == scan_probe(s, name.0@, hash, st, hashes as int, i as int, hash_start, n as int),
        invariant
            drive.sectors() == s,
            s == old(drive).sectors(),
            hashes == table_slots(s),
            0 < hashes <= u64::MAX - 6,
            start.offset < 6,
            1 <= start.lba <= 1 + hashes / 6,
            (start.lba - 1) * 6 + start.offset == st,
            st == fnv1a(name.0@) % hashes,
            hash == fnv1a(name.0@),
            i <= hashes,
            n <= i,
            hash_start is Some ==> n < i,
            hash_start is None ==> n == 0,
            hash_start matches Some(p) ==> p.offset < 6 && p.lba <= hashes / 6,
        ensures
            total == (match hash_start { Some(p) => Some((p, n as int)), None => None }),
            n < hashes,
        decreases hashes - i,
    {
        let ptr = match probe_at(&start, hashes, i) {
            Some(p) => p,
            None => break,
        };
        let entry = ptr.read(drive)?;
        proof {
            assert(status_of(status_byte(s, ptr)) == Some(entry.status));
        }
        if entry.status == HashStatus::Unused {
            break;
        }
        if entry.status == HashStatus::Tombstone {
            i = i + 1;
            continue;
        }
        if name_to_hash(&entry.name) != hash {
            break;
        }
        if !crate::lemoncc::table::names_equal(&entry.name, &name.0) {
            i = i + 1;
            continue;
        }
        if hash_start.is_none() {
            hash_start = Some(ptr);
        } else {
            n = n + 1;
        }
        i = i + 1;
    }
    match hash_start {
        Some(h) => Ok((h, n)),
        None => Err(HashFsError::FileNotFound),
    }
}

/// The slot `k` places after `p`, on in the following sectors.
pub open spec fn slot_after(p: HashPointer, k: int) -> HashPointer {
    HashPointer { lba: (p.lba + (p.offset + k) / 6) as u64, offset: ((p.offset + k) % 6) as u8 }
}

/// The pointers of `ps` to used entries of kind `t`, in order.
pub open spec fn of_kind(s: Seq<[u8; 512]>, ps: Seq<HashPointer>, t: FileType) -> Seq<HashPointer>
    decreases ps.len(),
{
    if ps.len() == 0 {
        Seq::empty()
    } else {
        let rest = of_kind(s, ps.drop_last(), t);
        let p = ps.last();
        if status_byte(s, p) == 1 && spec_file_type(entry_bytes(s, image_ptr(p))[1]) == t { rest.push(p) } else { rest }
    }
}

/// The used entries of kind `type_` named `name`: of the slots from the first entry the probe
/// finds for the name (see [`scan`]) to the last, counting the further entries it finds, those
/// that hold a used entry of that kind. None is `FileNotFound`.
pub fn find<D: StorageDrive>(drive: &mut D, name: &FileName, type_: FileType) -> (r: Result<Vec<HashPointer>, HashFsError>)
    ensures
        final(drive).sectors() == old(drive).sectors(),
        r matches Ok(v) ==> ({
            let s = old(drive).sectors();
            let n = table_slots(s);
            scan_probe(s, name.0@, fnv1a(name.0@), (fnv1a(name.0@) % n) as int, n as int, 0, None, 0) matches Some(x)
                && v@ == of_kind(s, Seq::new((x.1 + 1) as nat, |k: int| slot_after(x.0, k)), type_)
                && v@.len() > 0
        }),
        r == Err::<Vec<HashPointer>, HashFsError>(HashFsError::FileNotFound) ==> ({
            let s = old(drive).sectors();
            let n = table_slots(s);
            scan_probe(s, name.0@, fnv1a(name.0@), (fnv1a(name.0@) % n) as int, n as int, 0, None, 0) matches Some(x)
                ==> of_kind(s, Seq::new((x.1 + 1) as nat, |k: int| slot_after(x.0, k)), type_).len() == 0
        }),
        r matches Err(e) ==> e == HashFsError::IO || e == HashFsError::FileNotFound,
{
    let ghost s = drive.sectors();
    let (start, count) = scan(drive, name)?;
    let ghost cands = Seq::new((count + 1) as nat, |k: int| slot_after(start, k));
    let mut res: Vec<HashPointer> = Vec::new();
    let mut k: u64 = 0;
    while k <= count
        invariant
            drive.sectors() == s,
            s == old(drive).sectors(),
            start.offset < 6,
            start.lba <= table_slots(s) / 6,
            count < table_slots(s),
            table_slots(s) <= u64::MAX - 6,
            k <= count + 1,
            cands == Seq::new((count + 1) as nat, |j: int| slot_after(start, j)),
            res@ == of_kind(s, cands.subrange(0, k as int), type_),
        decreases count + 1 - k,
    {
        let ptr = HashPointer {
            lba: start.lba + (start.offset as u64 + k) / 6,
            offset: ((start.offset as u64 + k) % 6) as u8,
        };
        proof {
            assert(ptr == cands[k as int]);
            assert(cands.subrange(0, k + 1).drop_last() =~= cands.subrange(0, k as int));
        }
        let entry = ptr.read(drive)?;
        proof {
            assert(status_of(status_byte(s, ptr)) == Some(entry.status));
        }
        if entry.type_ == type_ && entry.status == HashStatus::Used {
            res.push(ptr);
        }
        k = k + 1;
    }
    proof {
        assert(cands.subrange(0, count + 1) =~= cands);
    }
    if res.len() == 0 {
        return Err(HashFsError::FileNotFound);
    }
    Ok(res)
}

/// A used entry of kind `t` named `name`, starting at `start`, of `size` bytes, with no link.
pub open spec fn fresh_entry(t: FileType, name: [u8; FILENAME_LEN], start: u64, size: u64) -> HashEntry {
    HashEntry { status: HashStatus::Used, type_: t, name, start_block: start, file_size: size, link: LinkEntry { ptr: 0, size: 0 } }
}

/// Enters `file` in the table: a used file entry in the first free slot of its name's probe
/// (see [`find_free_slot`]). Returns the slot.
pub fn new_file_hash<D: StorageDrive>(drive: &mut D, file: &File) -> (r: Result<HashPointer, HashFsError>)
    ensures
        r matches Ok(p) ==> ({
            let s = old(drive).sectors();
            let n = table_slots(s);
            &&& free_probe(s, (fnv1a(file.name.0@) % n) as int, n as int, 0) == Some(p)
            &&& sector_spliced(s, final(drive).sectors(), p.lba as int, p.offset * 74,
                    entry_image(fresh_entry(FileType::File, file.name.0, file.start, file.size)))
        }),
        r is Err ==> final(drive).sectors().len() == old(drive).sectors().len(),
        r matches Err(e) ==> e == HashFsError::IO || e == HashFsError::DiskFull,
{
    let mut slot = find_free_slot(drive, &file.name)?;
    let hash = HashEntry::new(FileType::File, file.name.0, file.start, file.size);
    slot.write(drive, hash)?;
    Ok(slot)
}

/// Enters `dir` in the table: a used directory entry of size zero in the first free slot of
/// its name's probe (see [`find_free_slot`]). Returns the slot.
pub fn new_directory_hash<D: StorageDrive>(drive: &mut D, dir: &Directory) -> (r: Result<HashPointer, HashFsError>)
    ensures
        r matches Ok(p) ==> ({
            let s = old(drive).sectors();
            let n = table_slots(s);
            &&& free_probe(s, (fnv1a(dir.name.0@) % n) as int, n as int, 0) == Some(p)
            &&& sector_spliced(s, final(drive).sectors(), p.lba as int, p.offset * 74,
                    entry_image(fresh_entry(FileType::Directory, dir.name.0, dir.start, 0)))
        }),
        r is Err ==> final(drive).sectors().len() == old(drive).sectors().len(),
        r matches Err(e) ==> e == HashFsError::IO || e == HashFsError::DiskFull,
{
    let mut slot = find_free_slot(drive, &dir.name)?;
    let hash = HashEntry::new(FileType::Directory, dir.name.0, dir.start, 0);
    slot.write(drive, hash)?;
    Ok(slot)
}

/// Marks the entry at `ptr` a tombstone, keeping its other fields.
pub fn tombstone<D: StorageDrive>(drive: &mut D, ptr: HashPointer) -> (r: Result<(), HashFsError>)
    requires
        ptr.offset < HASHES_PER_BLOCK,
    ensures
        r is Ok ==> exists|e: HashEntry| #[trigger] entry_holds(e, entry_bytes(old(drive).sectors(), image_ptr(ptr)))
            && sector_spliced(old(drive).sectors(), final(drive).sectors(), ptr.lba as int, ptr.offset * 74,
                entry_image(HashEntry { status: HashStatus::Tombstone, ..e })),
        r is Ok ==> exists|e: HashEntry| #[trigger] entry_holds(e, entry_bytes(old(drive).sectors(), image_ptr(ptr)))
            && entry_holds(HashEntry { status: HashStatus::Tombstone, ..e }, entry_bytes(final(drive).sectors(), image_ptr(ptr))),
        r is Err ==> final(drive).sectors() == old(drive).sectors(),
        r matches Err(e) ==> e == HashFsError::IO,
{
    let mut ptr = ptr;
    let mut entry = ptr.read(drive)?;
    let ghost e0 = entry;
    entry.status = HashStatus::Tombstone;
    let r = ptr.write(drive, entry);
    proof {
        assert(entry == HashEntry { status: HashStatus::Tombstone, ..e0 });
        if r is Ok {
            lemma_entry_image_holds(entry);
            lemma_spliced_bytes(old(drive).sectors()[ptr.lba as int]@, ptr.offset * 74, entry_image(entry));
            assert(entry_bytes(drive.sectors(), image_ptr(ptr)) == entry_image(entry));
        }
    }
    r
}

/// Tombstoning is idempotent: after a slot was marked a tombstone (see [`tombstone`]), marking
/// the entry it now holds a tombstone again leaves every sector as the first mark left it.
pub proof fn lemma_tombstone_idempotent(s: Seq<[u8; 512]>, t: Seq<[u8; 512]>, u: Seq<[u8; 512]>, ptr: HashPointer,
    e: HashEntry, e2: HashEntry)
    requires
        ptr.offset < HASHES_PER_BLOCK,
        entry_holds(e, entry_bytes(s, image_ptr(ptr))),
        sector_spliced(s, t, ptr.lba as int, ptr.offset * 74, entry_image(HashEntry { status: HashStatus::Tombstone, ..e })),
        entry_holds(e2, entry_bytes(t, image_ptr(ptr))),
        sector_spliced(t, u, ptr.lba as int, ptr.offset * 74, entry_image(HashEntry { status: HashStatus::Tombstone, ..e2 })),
    ensures
        u.len() == t.len(),
        forall|l: int| 0 <= l < t.len() ==> #[trigger] u[l]@ == t[l]@,
{
    let t1 = HashEntry { status: HashStatus::Tombstone, ..e };
    let t2 = HashEntry { status: HashStatus::Tombstone, ..e2 };
    let off = ptr.offset * 74;
    let lba = ptr.lba as int;
    lemma_entry_image_holds(t1);
    lemma_entry_image_holds(t2);
    lemma_spliced_bytes(s[lba]@, off, entry_image(t1));
    let b = entry_bytes(t, image_ptr(ptr));
    assert(b == entry_image(t1));
    assert(e2.status == HashStatus::Tombstone);
    assert(t2.name@ == t1.name@);
    assert(entry_image(t2) =~= entry_image(t1));
    let sec = t[lba]@;
    assert(sec.subrange(off, off + 74) == entry_image(t1));
    assert(splice(sec, off, entry_image(t2)) =~= sec);
}

/// A write through a pointer reads back: after [`HashPointer::write`] put `entry` in slot `p`,
/// the entry the slot holds (what [`HashPointer::read`] gives) is `entry`, and every other slot
/// holds what it held.
pub proof fn lemma_write_then_read(s: Seq<[u8; 512]>, t: Seq<[u8; 512]>, p: HashPointer, entry: HashEntry, found: HashEntry)
    requires
        p.offset < HASHES_PER_BLOCK,
        sector_spliced(s, t, p.lba as int, p.offset * 74, entry_image(entry)),
        entry_holds(found, entry_bytes(t, image_ptr(p))),
    ensures
        found == entry,
        status_of(entry_bytes(t, image_ptr(p))[0]) is Some,
        forall|q: HashPointer| q.offset < HASHES_PER_BLOCK && q.lba < s.len() && q != p
            ==> #[trigger] entry_bytes(t, image_ptr(q)) == entry_bytes(s, image_ptr(q)),
{
    broadcast use vstd::array::group_array_axioms;
    lemma_entry_image_holds(entry);
    crate::lemoncc::table::lemma_entry_after_splice(s, t, image_ptr(p), entry_image(entry), image_ptr(p));
    assert(entry_bytes(t, image_ptr(p)) == entry_image(entry));
    assert(found.name =~= entry.name) by {
        assert forall|i: int| 0 <= i < FILENAME_LEN implies found.name[i] == entry.name[i] by {
            assert(found.name@[i] == entry.name@[i]);
        }
    }
    assert forall|q: HashPointer| q.offset < HASHES_PER_BLOCK && q.lba < s.len() && q != p
        implies #[trigger] entry_bytes(t, image_ptr(q)) == entry_bytes(s, image_ptr(q)) by {
        crate::lemoncc::table::lemma_entry_after_splice(s, t, image_ptr(p), entry_image(entry), image_ptr(q));
    }
}

/// Renames the entry at `old_ptr` to `new_name`: marks it a tombstone, then writes it, used and
/// under the new name, in the first free slot of the new name's probe, as the table stands
/// after the tombstone. Returns the new slot.
pub fn rename_hash<D: StorageDrive>(drive: &mut D, old_ptr: HashPointer, new_name: &FileName) -> (r: Result<HashPointer, HashFsError>)
    requires
        old_ptr.offset < HASHES_PER_BLOCK,
    ensures
        r matches Ok(p) ==> exists|e: HashEntry, mid: Seq<[u8; 512]>|
            #[trigger] entry_holds(e, entry_bytes(old(drive).sectors(), image_ptr(old_ptr)))
            && #[trigger] sector_spliced(old(drive).sectors(), mid, old_ptr.lba as int, old_ptr.offset * 74,
                entry_image(HashEntry { status: HashStatus::Tombstone, ..e }))
            && free_probe(mid, (fnv1a(new_name.0@) % table_slots(mid)) as int, table_slots(mid) as int, 0) == Some(p)
            && sector_spliced(mid, final(drive).sectors(), p.lba as int, p.offset * 74,
                entry_image(HashEntry { status: HashStatus::Used, name: new_name.0, ..e })),
        r == Err::<HashPointer, HashFsError>(HashFsError::DiskFull) ==> exists|e: HashEntry|
            #[trigger] entry_holds(e, entry_bytes(old(drive).sectors(), image_ptr(old_ptr)))
            && sector_spliced(old(drive).sectors(), final(drive).sectors(), old_ptr.lba as int, old_ptr.offset * 74,
                entry_image(HashEntry { status: HashStatus::Tombstone, ..e }))
            && free_probe(final(drive).sectors(), (fnv1a(new_name.0@) % table_slots(final(drive).sectors())) as int,
                table_slots(final(drive).sectors()) as int, 0) is None,
        r matches Err(e) ==> e == HashFsError::IO || e == HashFsError::DiskFull,
{
    let mut old_ptr = old_ptr;
    let mut old_entry = old_ptr.read(drive)?;
    let ghost e0 = old_entry;
    old_entry.status = HashStatus::Tombstone;
    old_ptr.write(drive, old_entry)?;
    let ghost mid = drive.sectors();
    proof {
        assert(old_entry == HashEntry { status: HashStatus::Tombstone, ..e0 });
        assert(entry_holds(e0, entry_bytes(old(drive).sectors(), image_ptr(old_ptr))));
    }
    let mut new_slot = find_free_slot(drive, new_name)?;
    let new_entry = HashEntry {
        status: HashStatus::Used,
        type_: old_entry.type_,
        name: new_name.0,
        start_block: old_entry.start_block,
        file_size: old_entry.file_size,
        link: old_entry.link,
    };
    new_slot.write(drive, new_entry)?;
    proof {
        assert(old_entry == HashEntry { status: HashStatus::Tombstone, ..e0 });
        assert(new_entry == HashEntry { status: HashStatus::Used, name: new_name.0, ..e0 });
        assert(entry_holds(e0, entry_bytes(old(drive).sectors(), image_ptr(old_ptr))));
        assert(sector_spliced(old(drive).sectors(), mid, old_ptr.lba as int, old_ptr.offset * 74,
            entry_image(HashEntry { status: HashStatus::Tombstone, ..e0 })));
    }
    Ok(new_slot)
}

/// The pointer as this layout holds it.
pub open spec fn from_image_ptr(q: raw::HashPointer) -> HashPointer {
    HashPointer { lba: q.lba, offset: q.offset }
}

/// The non-empty child pointers among the first `k` slots of directory sector `b`, in order.
pub open spec fn live_children(b: Seq<u8>, k: int) -> Seq<HashPointer>
    decreases k,
{
    if k <= 0 {
        Seq::empty()
    } else {
        let r = live_children(b, k - 1);
        let q = raw::ptr_at(b, k - 1);
        if q.lba != 0 { r.push(from_image_ptr(q)) } else { r }
    }
}

/// Appends the non-empty child pointers of directory sector `b` to `children`.
fn push_live(b: &[u8; 512], children: &mut Vec<HashPointer>)
    ensures
        final(children)@ == old(children)@ + live_children(b@, 56),
{
    let ghost c0 = children@;
    let mut i: usize = 0;
    assert(c0 + live_children(b@, 0) =~= c0);
    while i < 56
        invariant
            i <= 56,
            children@ == c0 + live_children(b@, i as int),
        decreases 56 - i,
    {
        let q = raw::get_hash_ptr(b, i);
        if q.lba != 0 {
            children.push(HashPointer { lba: q.lba, offset: q.offset });
        }
        proof {
            assert(children@ =~= c0 + live_children(b@, i + 1));
        }
        i = i + 1;
    }
}

/// The 32 links of link sector `b`, in slot order.
pub open spec fn sector_links(b: Seq<u8>) -> Seq<LinkEntry> {
    Seq::new(32, |i: int| LinkEntry { ptr: raw::link_at(b, i).ptr, size: raw::link_at(b, i).size })
}

/// The children that the directory blocks reached by walking a stack of links list: the last
/// link is taken first; a link that is none is skipped; a directory block gives its children
/// before those of the rest; a link block's 32 links are pushed in slot order, so slot 31 is
/// taken next. Each link taken costs one unit of `fuel`; running out, or a block past the end
/// of the drive, is `None`.
pub open spec fn linked_children(s: Seq<[u8; 512]>, stack: Seq<LinkEntry>, fuel: nat) -> Option<Seq<HashPointer>>
    decreases fuel, stack.len(),
{
    if stack.len() == 0 {
        Some(Seq::empty())
    } else {
        let e = stack.last();
        let rest = stack.drop_last();
        if e.ptr == 0 {
            linked_children(s, rest, fuel)
        } else if fuel == 0 || e.ptr >= s.len() {
            None
        } else if e.size != 0 {
            match linked_children(s, rest, (fuel - 1) as nat) {
                Some(v) => Some(live_children(s[e.ptr as int]@, 56) + v),
                None => None,
            }
        } else {
            linked_children(s, rest + sector_links(s[e.ptr as int]@), (fuel - 1) as nat)
        }
    }
}

/// The children listed after `a`, as far as `o` holds them.
pub open spec fn children_after(a: Seq<HashPointer>, o: Option<Seq<HashPointer>>) -> Option<Seq<HashPointer>> {
    match o {
        Some(v) => Some(a + v),
        None => None,
    }
}

/// Walking a stack of links as [`linked_children`] does, the first directory block with an
/// empty slot is block `lba`.
pub open spec fn walk_reaches_free(s: Seq<[u8; 512]>, stack: Seq<LinkEntry>, fuel: nat, lba: int) -> bool
    decreases fuel, stack.len(),
{
    if stack.len() == 0 {
        false
    } else {
        let e = stack.last();
        let rest = stack.drop_last();
        if e.ptr == 0 {
            walk_reaches_free(s, rest, fuel, lba)
        } else if fuel == 0 || e.ptr >= s.len() {
            false
        } else if e.size != 0 {
            if !dir_sector_full(s[e.ptr as int]@) { e.ptr == lba } else { walk_reaches_free(s, rest, (fuel - 1) as nat, lba) }
        } else {
            walk_reaches_free(s, rest + sector_links(s[e.ptr as int]@), (fuel - 1) as nat, lba)
        }
    }
}

/// Walking a stack of links as [`linked_children`] does completes, and every directory block
/// it reaches is full.
pub open spec fn walk_all_full(s: Seq<[u8; 512]>, stack: Seq<LinkEntry>, fuel: nat) -> bool
    decreases fuel, stack.len(),
{
    if stack.len() == 0 {
        true
    } else {
        let e = stack.last();
        let rest = stack.drop_last();
        if e.ptr == 0 {
            walk_all_full(s, rest, fuel)
        } else if fuel == 0 || e.ptr >= s.len() {
            false
        } else if e.size != 0 {
            dir_sector_full(s[e.ptr as int]@) && walk_all_full(s, rest, (fuel - 1) as nat)
        } else {
            walk_all_full(s, rest + sector_links(s[e.ptr as int]@), (fuel - 1) as nat)
        }
    }
}

/// The walk `o` completed, and no child it lists is `c`.
pub open spec fn walk_lacks(o: Option<Seq<HashPointer>>, c: HashPointer) -> bool {
    o matches Some(v) && forall|i: int| 0 <= i < v.len() ==> v[i] != c
}

/// Each live child of the first `k` slots of `b` is the pointer of one of them.
proof fn lemma_live_children_from(b: Seq<u8>, k: int)
    ensures
        forall|i: int| 0 <= i < live_children(b, k).len() ==> exists|j: int| 0 <= j < k
            && #[trigger] live_children(b, k)[i] == from_image_ptr(raw::ptr_at(b, j)),
    decreases k,
{
    if k > 0 {
        lemma_live_children_from(b, k - 1);
        let r = live_children(b, k - 1);
        assert forall|i: int| 0 <= i < live_children(b, k).len() implies exists|j: int| 0 <= j < k
            && #[trigger] live_children(b, k)[i] == from_image_ptr(raw::ptr_at(b, j)) by {
            if i < r.len() {
                assert(live_children(b, k)[i] == r[i]);
                let j = choose|j: int| 0 <= j < k - 1 && r[i] == from_image_ptr(raw::ptr_at(b, j));
            } else {
                assert(live_children(b, k)[i] == from_image_ptr(raw::ptr_at(b, k - 1)));
            }
        }
    }
}

impl Directory {
    /// The directory whose table entry `ptr` points to: its name, slot and first block, and
    /// its children: those its first block lists, then, following its link chain from its last
    /// link back (a link block's links are all followed, the last first), those of each
    /// directory block the chain reaches. An entry that is not a directory is `IsFile`; a chain
    /// that reaches more blocks than the drive has sectors is an I/O error.
    pub fn from_ptr<D: StorageDrive>(ptr: HashPointer, drive: &mut D) -> (r: Result<Self, HashFsError>)
        requires
            ptr.offset < HASHES_PER_BLOCK,
        ensures
            final(drive).sectors() == old(drive).sectors(),
            r matches Ok(d) ==> exists|e: HashEntry| #[trigger] entry_holds(e, entry_bytes(old(drive).sectors(), image_ptr(ptr)))
                && e.type_ == FileType::Directory && d.name.0 == e.name && d.hash == ptr && d.start == e.start_block
                && e.start_block < old(drive).sectors().len()
                && d.children@.len() >= live_children(old(drive).sectors()[e.start_block as int]@, 56).len()
                && d.children@.subrange(0, live_children(old(drive).sectors()[e.start_block as int]@, 56).len() as int)
                    == live_children(old(drive).sectors()[e.start_block as int]@, 56)
                && Some(d.children@) == children_after(live_children(old(drive).sectors()[e.start_block as int]@, 56),
                    linked_children(old(drive).sectors(), seq![e.link], old(drive).sectors().len())),
            r == Err::<Self, HashFsError>(HashFsError::IsFile) ==> exists|e: HashEntry|
                #[trigger] entry_holds(e, entry_bytes(old(drive).sectors(), image_ptr(ptr))) && e.type_ != FileType::Directory,
            r matches Err(e) ==> e == HashFsError::IO || e == HashFsError::IsFile,
    {
        let ghost s = drive.sectors();
        let hash_entry = ptr.read(drive)?;
        if hash_entry.type_ != FileType::Directory {
            return Err(HashFsError::IsFile);
        }
        let lba = hash_entry.start_block;
        let block = read_sector(drive, lba)?;
        let mut children: Vec<HashPointer> = Vec::new();
        push_live(&block, &mut children);
        let ghost first = children@;
        assert(first == live_children(s[lba as int]@, 56));
        let mut stack: Vec<LinkEntry> = Vec::new();
        stack.push(hash_entry.link);
        let mut fuel: u64 = drive.sector_count();
        proof {
            assert(stack@ == seq![hash_entry.link]);
            assert(first + Seq::<HashPointer>::empty() =~= first);
            if let Some(v) = linked_children(s, stack@, fuel as nat) {
                assert(first + v =~= (first + Seq::<HashPointer>::empty()) + v);
            }
        }
        while stack.len() > 0
            invariant
                drive.sectors() == s,
                s == old(drive).sectors(),
                children@.len() >= first.len(),
                children@.subrange(0, first.len() as int) == first,
                children_after(first, linked_children(s, seq![hash_entry.link], s.len()))
                    == children_after(children@, linked_children(s, stack@, fuel as nat)),
            decreases fuel, stack@.len(),
        {
            let ghost st = stack@;
            let entry = stack.pop().unwrap();
            proof {
                assert(stack@ == st.drop_last());
                assert(entry == st.last());
            }
            if !entry.is_valid() {
                continue;
            }
            if fuel == 0 {
                return Err(HashFsError::IO);
            }
            fuel = fuel - 1;
            let b = read_sector(drive, entry.ptr)?;
            if !entry.is_direct() {
                let ghost base = stack@;
                let mut i: usize = 0;
                while i < 32
                    invariant
                        i <= 32,
                        stack@ == base + sector_links(b@).subrange(0, i as int),
                    decreases 32 - i,
                {
                    let l = raw::get_link(&b, i);
                    stack.push(LinkEntry { ptr: l.ptr, size: l.size });
                    proof {
                        assert(stack@ =~= base + sector_links(b@).subrange(0, i + 1));
                    }
                    i = i + 1;
                }
                proof {
                    assert(sector_links(b@).subrange(0, 32) =~= sector_links(b@));
                }
                continue;
            }
            let ghost before = children@;
            push_live(&b, &mut children);
            proof {
                assert(children@.subrange(0, first.len() as int) =~= before.subrange(0, first.len() as int));
                if let Some(v) = linked_children(s, stack@, fuel as nat) {
                    assert(before + (live_children(b@, 56) + v) =~= (before + live_children(b@, 56)) + v);
                }
            }
        }
        proof {
            assert(children@ + Seq::<HashPointer>::empty() =~= children@);
        }
        Ok(Directory { name: FileName(hash_entry.name), hash: ptr, start: lba, children })
    }
}

/// The pointers of `v` other than `c`, in order.
pub open spec fn without(v: Seq<HashPointer>, c: HashPointer) -> Seq<HashPointer>
    decreases v.len(),
{
    if v.len() == 0 {
        Seq::empty()
    } else {
        let r = without(v.drop_last(), c);
        if v.last() == c { r } else { r.push(v.last()) }
    }
}

/// Slot `i` is the first slot of directory sector `b` that holds `c`.
pub open spec fn first_holding(b: Seq<u8>, c: HashPointer, i: int) -> bool {
    &&& 0 <= i < 56
    &&& from_image_ptr(raw::ptr_at(b, i)) == c
    &&& forall|j: int| 0 <= j < i ==> from_image_ptr(#[trigger] raw::ptr_at(b, j)) != c
}

/// The first slot of directory sector `b` that holds `child`.
fn find_slot(b: &[u8; 512], child: &HashPointer) -> (r: Option<usize>)
    ensures
        r matches Some(i) ==> i < 56 && from_image_ptr(raw::ptr_at(b@, i as int)) == *child
            && forall|j: int| 0 <= j < i ==> from_image_ptr(#[trigger] raw::ptr_at(b@, j)) != *child,
        r is None ==> forall|j: int| 0 <= j < 56 ==> from_image_ptr(#[trigger] raw::ptr_at(b@, j)) != *child,
{
    let mut i: usize = 0;
    while i < 56
        invariant
            i <= 56,
            forall|j: int| 0 <= j < i ==> from_image_ptr(#[trigger] raw::ptr_at(b@, j)) != *child,
        decreases 56 - i,
    {
        let q = raw::get_hash_ptr(b, i);
        if q.lba == child.lba && q.offset == child.offset {
            return Some(i);
        }
        i = i + 1;
    }
    None
}

/// Empties slot `i` of directory sector `lba`, which holds `b`.
fn clear_slot<D: StorageDrive>(drive: &mut D, lba: u64, b: &[u8; 512], i: usize) -> (r: Result<(), HashFsError>)
    requires
        i < 56,
        lba < old(drive).sectors().len(),
        *b == old(drive).sectors()[lba as int],
    ensures
        r is Ok ==> sector_spliced(old(drive).sectors(), final(drive).sectors(), lba as int, i * 9,
            (raw::HashPointer { lba: 0, offset: 0 }).image()),
        r is Err ==> final(drive).sectors() == old(drive).sectors(),
        r matches Err(e) ==> e == HashFsError::IO,
{
    let mut nb = *b;
    raw::put_hash_ptr(&mut nb, i, &raw::HashPointer { lba: 0, offset: 0 });
    match drive.write_sector(lba, &nb) {
        Ok(()) => Ok(()),
        Err(_) => Err(HashFsError::IO),
    }
}

impl Directory {
    /// Removes `child_ptr` from the directory: drops it from the children in memory, and
    /// empties the first slot that holds it on disk: in the directory's first block, else in
    /// the first directory block that the walk of its link chain (see [`Self::from_ptr`])
    /// reaches. None holding it is `FileNotFound`.
    pub fn remove_child<D: StorageDrive>(&mut self, drive: &mut D, child_ptr: HashPointer) -> (r: Result<(), HashFsError>)
        requires
            old(self).hash.offset < HASHES_PER_BLOCK,
        ensures
            final(self).children@ == without(old(self).children@, child_ptr),
            final(self).name == old(self).name && final(self).hash == old(self).hash && final(self).start == old(self).start,
            r is Ok ==> exists|lba: int, k: int| 0 <= k < 56 && 0 <= lba < old(drive).sectors().len()
                && from_image_ptr(#[trigger] raw::ptr_at(old(drive).sectors()[lba]@, k)) == child_ptr
                && sector_spliced(old(drive).sectors(), final(drive).sectors(), lba, k * 9,
                    (raw::HashPointer { lba: 0, offset: 0 }).image()),
            r is Ok ==> exists|e: HashEntry| #[trigger] entry_holds(e, entry_bytes(old(drive).sectors(), image_ptr(old(self).hash)))
                && e.start_block < old(drive).sectors().len() && ({
                    let first = old(drive).sectors()[e.start_block as int]@;
                    ||| exists|i: int| #[trigger] first_holding(first, child_ptr, i)
                        && sector_spliced(old(drive).sectors(), final(drive).sectors(), e.start_block as int, i * 9,
                            (raw::HashPointer { lba: 0, offset: 0 }).image())
                    ||| (forall|j: int| 0 <= j < 56 ==> from_image_ptr(#[trigger] raw::ptr_at(first, j)) != child_ptr)
                        && exists|lba: int, k: int| 0 <= lba < old(drive).sectors().len()
                        && #[trigger] first_holding(old(drive).sectors()[lba]@, child_ptr, k)
                        && sector_spliced(old(drive).sectors(), final(drive).sectors(), lba, k * 9,
                            (raw::HashPointer { lba: 0, offset: 0 }).image())
                }),
            r == Err::<(), HashFsError>(HashFsError::FileNotFound) ==> exists|e: HashEntry|
                #[trigger] entry_holds(e, entry_bytes(old(drive).sectors(), image_ptr(old(self).hash)))
                && e.start_block < old(drive).sectors().len()
                && (forall|j: int| 0 <= j < 56 ==> from_image_ptr(#[trigger] raw::ptr_at(old(drive).sectors()[e.start_block as int]@, j)) != child_ptr)
                && walk_lacks(linked_children(old(drive).sectors(), seq![e.link], old(drive).sectors().len()), child_ptr),
            r is Err ==> final(drive).sectors() == old(drive).sectors(),
            r matches Err(e) ==> e == HashFsError::IO || e == HashFsError::FileNotFound,
    {
        let ghost s = drive.sectors();
        let mut kept: Vec<HashPointer> = Vec::new();
        let mut j: usize = 0;
        while j < self.children.len()
            invariant
                j <= self.children@.len(),
                self.children@ == old(self).children@,
                kept@ == without(self.children@.subrange(0, j as int), child_ptr),
            decreases self.children@.len() - j,
        {
            let c = self.children[j];
            proof {
                assert(self.children@.subrange(0, j + 1).drop_last() =~= self.children@.subrange(0, j as int));
            }
            if !(c.lba == child_ptr.lba && c.offset == child_ptr.offset) {
                kept.push(c);
            }
            j = j + 1;
        }
        proof {
            assert(self.children@.subrange(0, self.children@.len() as int) =~= self.children@);
        }
        self.children = kept;
        let hash = self.hash.read(drive)?;
        let data_start = hash.start_block;
        let block = read_sector(drive, data_start)?;
        if let Some(i) = find_slot(&block, &child_ptr) {
            proof { assert(first_holding(s[data_start as int]@, child_ptr, i as int)); }
            return clear_slot(drive, data_start, &block, i);
        }
        let mut stack: Vec<LinkEntry> = Vec::new();
        stack.push(hash.link);
        let mut fuel: u64 = drive.sector_count();
        proof {
            assert(stack@ == seq![hash.link]);
        }
        while stack.len() > 0
            invariant
                drive.sectors() == s,
                s == old(drive).sectors(),
                entry_holds(hash, entry_bytes(s, image_ptr(old(self).hash))),
                hash.start_block < s.len(),
                forall|j: int| 0 <= j < 56 ==> from_image_ptr(#[trigger] raw::ptr_at(s[hash.start_block as int]@, j)) != child_ptr,
                self.children@ == without(old(self).children@, child_ptr),
                self.name == old(self).name && self.hash == old(self).hash && self.start == old(self).start,
                walk_lacks(linked_children(s, stack@, fuel as nat), child_ptr)
                    ==> walk_lacks(linked_children(s, seq![hash.link], s.len()), child_ptr),
            decreases fuel, stack@.len(),
        {
            let ghost st = stack@;
            let ghost f0 = fuel;
            let entry = stack.pop().unwrap();
            proof {
                assert(stack@ == st.drop_last());
                assert(entry == st.last());
            }
            if !entry.is_valid() {
                continue;
            }
            if fuel == 0 {
                return Err(HashFsError::IO);
            }
            fuel = fuel - 1;
            let b = read_sector(drive, entry.ptr)?;
            if entry.is_direct() {
                if let Some(i) = find_slot(&b, &child_ptr) {
                    proof { assert(first_holding(s[entry.ptr as int]@, child_ptr, i as int)); }
                    return clear_slot(drive, entry.ptr, &b, i);
                }
                proof {
                    lemma_live_children_from(b@, 56);
                    if walk_lacks(linked_children(s, stack@, fuel as nat), child_ptr) {
                        let v = linked_children(s, stack@, fuel as nat)->0;
                        let w = live_children(b@, 56) + v;
                        assert forall|i: int| 0 <= i < w.len() implies w[i] != child_ptr by {
                            if i < live_children(b@, 56).len() {
                                assert(w[i] == live_children(b@, 56)[i]);
                            } else {
                                assert(w[i] == v[i - live_children(b@, 56).len()]);
                            }
                        }
                        assert(linked_children(s, st, f0 as nat) == Some(w));
                    }
                }
            } else {
                let ghost base = stack@;
                let mut i: usize = 0;
                while i < 32
                    invariant
                        i <= 32,
                        stack@ == base + sector_links(b@).subrange(0, i as int),
                    decreases 32 - i,
                {
                    let l = raw::get_link(&b, i);
                    stack.push(LinkEntry { ptr: l.ptr, size: l.size });
                    proof {
                        assert(stack@ =~= base + sector_links(b@).subrange(0, i + 1));
                    }
                    i = i + 1;
                }
                proof {
                    assert(sector_links(b@).subrange(0, 32) =~= sector_links(b@));
                }
            }
        }
        Err(HashFsError::FileNotFound)
    }
}

/// Slot `i` is the first empty slot of directory sector `b`.
pub open spec fn first_free_slot(b: Seq<u8>, i: int) -> bool {
    &&& 0 <= i < 56
    &&& raw::ptrs_of(b)[i].lba == 0
    &&& forall|j: int| 0 <= j < i ==> #[trigger] raw::ptrs_of(b)[j].lba != 0
}

/// Every slot of directory sector `b` holds a child.
pub open spec fn dir_sector_full(b: Seq<u8>) -> bool {
    forall|j: int| 0 <= j < 56 ==> #[trigger] raw::ptrs_of(b)[j].lba != 0
}

/// Writes `child` in slot `i` of directory sector `lba`, which holds `b`.
fn put_child<D: StorageDrive>(drive: &mut D, lba: u64, b: &[u8; 512], i: usize, child: &HashPointer) -> (r: Result<(), HashFsError>)
    requires
        i < 56,
        lba < old(drive).sectors().len(),
        *b == old(drive).sectors()[lba as int],
    ensures
        r is Ok ==> sector_spliced(old(drive).sectors(), final(drive).sectors(), lba as int, i * 9, image_ptr(*child).image()),
        r is Err ==> final(drive).sectors() == old(drive).sectors(),
        r matches Err(e) ==> e == HashFsError::IO,
{
    let mut nb = *b;
    raw::put_hash_ptr(&mut nb, i, &raw::HashPointer { lba: child.lba, offset: child.offset });
    match drive.write_sector(lba, &nb) {
        Ok(()) => Ok(()),
        Err(_) => Err(HashFsError::IO),
    }
}

impl Directory {
    /// Adds `child` to the directory: appends it to the children in memory, and writes it on
    /// disk in the first empty slot of the directory's first block; else in the first empty
    /// slot of the first directory block that the walk of its link chain (see
    /// [`Self::from_ptr`]) reaches with one; else in slot 0 of a new block, allocated at the
    /// first fit (see [`super::space::bitmap_alloc_first_fit`]) and appended to the entry's link
    /// chain (see [`super::pointers::extend_link`]), the entry then being written back.
    pub fn add_child<D: StorageDrive>(&mut self, drive: &mut D, child: HashPointer) -> (r: Result<(), HashFsError>)
        requires
            old(self).hash.offset < HASHES_PER_BLOCK,
        ensures
            final(self).children@ == old(self).children@.push(child),
            final(self).name == old(self).name && final(self).hash == old(self).hash && final(self).start == old(self).start,
            final(drive).sectors().len() == old(drive).sectors().len(),
            r is Ok ==> exists|e: HashEntry| #[trigger] entry_holds(e, entry_bytes(old(drive).sectors(), image_ptr(old(self).hash)))
                && e.start_block < old(drive).sectors().len() && ({
                    let first = old(drive).sectors()[e.start_block as int]@;
                    ||| exists|i: int| #[trigger] first_free_slot(first, i) && sector_spliced(old(drive).sectors(), final(drive).sectors(),
                        e.start_block as int, i * 9, image_ptr(child).image())
                    ||| dir_sector_full(first) && exists|lba: int, k: int| 0 <= lba < old(drive).sectors().len()
                        && #[trigger] first_free_slot(old(drive).sectors()[lba]@, k)
                        && walk_reaches_free(old(drive).sectors(), seq![e.link], old(drive).sectors().len(), lba)
                        && sector_spliced(old(drive).sectors(), final(drive).sectors(), lba, k * 9, image_ptr(child).image())
                    ||| dir_sector_full(first) && walk_all_full(old(drive).sectors(), seq![e.link], old(drive).sectors().len())
                }),
            r matches Err(e) ==> e == HashFsError::IO || e == HashFsError::DiskFull,
    {
        let ghost s = drive.sectors();
        self.children.push(child);
        let hash = self.hash.read(drive)?;
        let data_start = hash.start_block;
        let block = read_sector(drive, data_start)?;
        match crate::lemoncc::dirs::find_free_dentry_slot(&block) {
            Some(idx) => {
                let r = put_child(drive, data_start, &block, idx, &child);
                proof {
                    assert(first_free_slot(s[data_start as int]@, idx as int));
                }
                return r;
            }
            None => {}
        }
        proof {
            assert(dir_sector_full(s[data_start as int]@));
        }
        let mut stack: Vec<LinkEntry> = Vec::new();
        stack.push(hash.link);
        let mut fuel: u64 = drive.sector_count();
        proof {
            assert(stack@ == seq![hash.link]);
        }
        while stack.len() > 0
            invariant
                drive.sectors() == s,
                s == old(drive).sectors(),
                self.children@ == old(self).children@.push(child),
                self.name == old(self).name && self.hash == old(self).hash && self.start == old(self).start,
                self.hash.offset < HASHES_PER_BLOCK,
                entry_holds(hash, entry_bytes(s, image_ptr(old(self).hash))),
                hash.start_block < s.len(),
                dir_sector_full(s[hash.start_block as int]@),
                forall|x: int| #[trigger] walk_reaches_free(s, stack@, fuel as nat, x)
                    ==> walk_reaches_free(s, seq![hash.link], s.len(), x),
                walk_all_full(s, stack@, fuel as nat) ==> walk_all_full(s, seq![hash.link], s.len()),
            decreases fuel, stack@.len(),
        {
            let ghost st = stack@;
            let ghost f0 = fuel;
            let entry = stack.pop().unwrap();
            proof {
                assert(stack@ == st.drop_last());
                assert(entry == st.last());
            }
            if !entry.is_valid() {
                proof {
                    assert forall|x: int| #[trigger] walk_reaches_free(s, stack@, fuel as nat, x)
                        implies walk_reaches_free(s, seq![hash.link], s.len(), x) by {
                        assert(walk_reaches_free(s, st, f0 as nat, x));
                    }
                }
                continue;
            }
            if fuel == 0 {
                return Err(HashFsError::IO);
            }
            fuel = fuel - 1;
            let b = read_sector(drive, entry.ptr)?;
            if entry.is_direct() {
                match crate::lemoncc::dirs::find_free_dentry_slot(&b) {
                    Some(idx) => {
                        let r = put_child(drive, entry.ptr, &b, idx, &child);
                        proof {
                            assert(first_free_slot(s[entry.ptr as int]@, idx as int));
                            assert(!dir_sector_full(s[entry.ptr as int]@));
                            assert(walk_reaches_free(s, st, f0 as nat, entry.ptr as int));
                        }
                        return r;
                    }
                    None => {
                        proof {
                            assert(dir_sector_full(s[entry.ptr as int]@));
                            assert forall|x: int| #[trigger] walk_reaches_free(s, stack@, fuel as nat, x)
                                implies walk_reaches_free(s, seq![hash.link], s.len(), x) by {
                                assert(walk_reaches_free(s, st, f0 as nat, x));
                            }
                        }
                    }
                }
            } else {
                let ghost base = stack@;
                let mut i: usize = 0;
                while i < 32
                    invariant
                        i <= 32,
                        stack@ == base + sector_links(b@).subrange(0, i as int),
                    decreases 32 - i,
                {
                    let l = raw::get_link(&b, i);
                    stack.push(LinkEntry { ptr: l.ptr, size: l.size });
                    proof {
                        assert(stack@ =~= base + sector_links(b@).subrange(0, i + 1));
                    }
                    i = i + 1;
                }
                proof {
                    assert(sector_links(b@).subrange(0, 32) =~= sector_links(b@));
                    assert forall|x: int| #[trigger] walk_reaches_free(s, stack@, fuel as nat, x)
                        implies walk_reaches_free(s, seq![hash.link], s.len(), x) by {
                        assert(walk_reaches_free(s, st, f0 as nat, x));
                    }
                }
            }
        }
        let new_lba = super::space::bitmap_alloc_first_fit(drive, 1)?;
        let mut nb = [0u8; 512];
        raw::put_hash_ptr(&mut nb, 0, &raw::HashPointer { lba: child.lba, offset: child.offset });
        match drive.write_sector(new_lba, &nb) {
            Ok(()) => {}
            Err(_) => return Err(HashFsError::IO),
        }
        let mut hash = self.hash.read(drive)?;
        super::pointers::extend_link(drive, &mut hash.link, LinkEntry { ptr: new_lba, size: 512 })?;
        self.hash.write(drive, hash)
    }
}

} // verus!
