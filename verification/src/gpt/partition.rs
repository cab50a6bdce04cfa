//! GPT integrity checks and partition enumeration: on sectors read from the drive, and the
//! reads themselves.

use vstd::prelude::*;
use super::GPTError;
use super::headers::{ProtectiveMBR, PrimaryGPTHeader, GPTPartitionEntry, EntryView, header_fields_match,
    entry_view_at, le_u16_at, GPT_ENTRY_SIZE};
use crate::helpers::crc::spec_crc32;
use crate::library::crc32::crc32;
use crate::fs::hashtable::drive::StorageDrive;

verus! {

/// Size of a sector in bytes.
pub const LBA_SIZE: u64 = 512;

/// The type GUID of the EFI system partition, as stored on disk.
pub const EFI_GUID: [u8; 16] = [
    0x28, 0x73, 0x2A, 0xC1, 0x1F, 0xF8, 0xD2, 0x11,
    0xBA, 0x4B, 0x00, 0xA0, 0xC9, 0x3E, 0xC9, 0x3B,
];

/// `b"EFI PART"`, the header signature.
pub open spec fn efi_part() -> Seq<u8> {
    seq![0x45u8, 0x46u8, 0x49u8, 0x20u8, 0x50u8, 0x41u8, 0x52u8, 0x54u8]
}

/// The header bytes with the checksum field (bytes 16..20) zeroed.
pub open spec fn zeroed_checksum(b: Seq<u8>) -> Seq<u8> {
    b.update(16, 0u8).update(17, 0u8).update(18, 0u8).update(19, 0u8)
}

/// The header carries the GPT signature.
pub open spec fn signature_ok(h: PrimaryGPTHeader) -> bool {
    h.signature@ == efi_part()
}

/// The header's size lies between the GPT minimum (92) and a sector.
pub open spec fn size_ok(h: PrimaryGPTHeader) -> bool {
    92 <= h.size <= LBA_SIZE
}

/// The header's checksum is the CRC32 of its first `size` bytes with the checksum zeroed.
pub open spec fn checksum_ok(h: PrimaryGPTHeader, b: Seq<u8>) -> bool {
    h.checksum == spec_crc32(zeroed_checksum(b).subrange(0, h.size as int))
}

/// The usable range lies on a drive of `capacity` bytes and is not reversed.
pub open spec fn range_ok(h: PrimaryGPTHeader, capacity: u64) -> bool {
    h.end_lba <= capacity / LBA_SIZE && h.start_lba <= h.end_lba
}

/// What the primary header tells: it is sound, or the backup header must be tried.
#[derive(Debug, Clone, Copy)]
pub enum PrimaryVerdict {
    Valid(PrimaryGPTHeader),
    UseBackup,
}

/// The CRC32 of the first `size` bytes of the header sector, with its checksum field zeroed.
pub fn header_checksum(b: &[u8], size: u32) -> (r: u32)
    requires
        92 <= size <= b@.len(),
    ensures
        r == spec_crc32(zeroed_checksum(b@).subrange(0, size as int)),
{
    let mut v: Vec<u8> = Vec::new();
    let mut i: usize = 0;
    let n = size as usize;
    while i < n
        invariant
            n == size,
            92 <= n <= b@.len(),
            i <= n,
            v@ == zeroed_checksum(b@).subrange(0, i as int),
        decreases n - i,
    {
        let byte = if 16 <= i && i < 20 { 0u8 } else { b[i] };
        v.push(byte);
        i = i + 1;
        assert(v@ =~= zeroed_checksum(b@).subrange(0, i as int));
    }
    crc32(v.as_slice())
}

/// Whether the header's signature is `b"EFI PART"`.
fn has_signature(h: &PrimaryGPTHeader) -> (r: bool)
    ensures
        r == signature_ok(*h),
{
    let expected: [u8; 8] = [0x45, 0x46, 0x49, 0x20, 0x50, 0x41, 0x52, 0x54];
    let mut i: usize = 0;
    while i < 8
        invariant
            i <= 8,
            expected@ == efi_part(),
            forall|j: int| 0 <= j < i ==> h.signature@[j] == efi_part()[j],
        decreases 8 - i,
    {
        if h.signature[i] != expected[i] {
            return false;
        }
        i = i + 1;
    }
    assert(h.signature@ =~= efi_part());
    true
}

/// Checks the protective MBR (sector 0) and the primary header (sector 1) of a drive of
/// `capacity` bytes. A missing boot signature refuses the drive; a header of impossible size is
/// refused; a header without signature, with a wrong checksum or with a usable range off the
/// drive sends the caller to the backup header.
pub fn check_primary(sector0: &[u8], sector1: &[u8], capacity: u64) -> (r: Result<PrimaryVerdict, GPTError>)
    requires
        sector0@.len() >= 512,
        sector1@.len() >= 512,
    ensures
        le_u16_at(sector0@, 510) != 0xAA55 ==> r == Err::<PrimaryVerdict, GPTError>(GPTError::InvalidProtectiveMBR),
        le_u16_at(sector0@, 510) == 0xAA55 ==> match r {
            Ok(PrimaryVerdict::Valid(h)) => header_fields_match(h, sector1@) && signature_ok(h) && size_ok(h)
                && checksum_ok(h, sector1@) && range_ok(h, capacity),
            Ok(PrimaryVerdict::UseBackup) => exists|h: PrimaryGPTHeader| header_fields_match(h, sector1@)
                && (!signature_ok(h) || (size_ok(h) && (!checksum_ok(h, sector1@) || !range_ok(h, capacity)))),
            Err(e) => e == GPTError::BadGPTHeader && exists|h: PrimaryGPTHeader| header_fields_match(h, sector1@)
                && signature_ok(h) && !size_ok(h),
        },
{
    let mbr = ProtectiveMBR::from_bytes(sector0);
    if mbr.boot_sig != 0xAA55 {
        return Err(GPTError::InvalidProtectiveMBR);
    }
    let h = PrimaryGPTHeader::from_bytes(sector1);
    if !has_signature(&h) {
        return Ok(PrimaryVerdict::UseBackup);
    }
    if h.size < 92 || h.size as u64 > LBA_SIZE {
        return Err(GPTError::BadGPTHeader);
    }
    if h.checksum != header_checksum(sector1, h.size) {
        return Ok(PrimaryVerdict::UseBackup);
    }
    if h.end_lba > capacity / LBA_SIZE || h.start_lba > h.end_lba {
        return Ok(PrimaryVerdict::UseBackup);
    }
    Ok(PrimaryVerdict::Valid(h))
}

/// The sector of the backup header: the last sector of a drive of `capacity` bytes.
pub fn backup_lba(capacity: u64) -> (r: u64)
    requires
        capacity >= LBA_SIZE,
    ensures
        r == capacity / LBA_SIZE - 1,
{
    capacity / LBA_SIZE - 1
}

/// Checks the backup header held by `sector` on a drive of `capacity` bytes: any fault refuses it.
pub fn check_backup(sector: &[u8], capacity: u64) -> (r: Result<PrimaryGPTHeader, GPTError>)
    requires
        sector@.len() >= 512,
    ensures
        match r {
            Ok(h) => header_fields_match(h, sector@) && signature_ok(h) && size_ok(h)
                && checksum_ok(h, sector@) && range_ok(h, capacity),
            Err(e) => e == GPTError::BadGPTHeader && exists|h: PrimaryGPTHeader| header_fields_match(h, sector@)
                && !(signature_ok(h) && size_ok(h) && checksum_ok(h, sector@) && range_ok(h, capacity)),
        },
{
    let h = PrimaryGPTHeader::from_bytes(sector);
    if !has_signature(&h) {
        return Err(GPTError::BadGPTHeader);
    }
    if h.size < 92 || h.size as u64 > LBA_SIZE {
        return Err(GPTError::BadGPTHeader);
    }
    if h.checksum != header_checksum(sector, h.size) {
        return Err(GPTError::BadGPTHeader);
    }
    if h.end_lba > capacity / LBA_SIZE || h.start_lba > h.end_lba {
        return Err(GPTError::BadGPTHeader);
    }
    Ok(h)
}

/// An entry is listed unless its type is all zero or its range is reversed or off the usable range.
pub open spec fn entry_kept(e: EntryView, h: PrimaryGPTHeader) -> bool {
    &&& e.0 != Seq::new(16, |i: int| 0u8)
    &&& !(e.2 > e.3 || e.2 < h.start_lba || e.3 > h.end_lba)
}

/// The kept entries among the first `n` entries of the array `b`, in order.
pub open spec fn kept_entries(b: Seq<u8>, n: nat, h: PrimaryGPTHeader) -> Seq<EntryView>
    decreases n,
{
    if n == 0 {
        Seq::empty()
    } else {
        let p = kept_entries(b, (n - 1) as nat, h);
        let e = entry_view_at(b, (n - 1) * GPT_ENTRY_SIZE);
        if entry_kept(e, h) { p.push(e) } else { p }
    }
}

/// Whether every byte of the type GUID is zero.
fn type_is_zero(e: &GPTPartitionEntry) -> (r: bool)
    ensures
        r == (e.partition_type@ == Seq::new(16, |i: int| 0u8)),
{
    let mut i: usize = 0;
    while i < 16
        invariant
            i <= 16,
            forall|j: int| 0 <= j < i ==> e.partition_type@[j] == 0u8,
        decreases 16 - i,
    {
        if e.partition_type[i] != 0 {
            assert(e.partition_type@[i as int] != Seq::new(16, |i: int| 0u8)[i as int]);
            return false;
        }
        i = i + 1;
    }
    assert(e.partition_type@ =~= Seq::new(16, |i: int| 0u8));
    true
}

/// The size in bytes of the entry array that `header` describes, and the sectors that hold it.
pub fn entry_array_extent(header: &PrimaryGPTHeader) -> (r: (u64, u64))
    ensures
        r.0 == header.entry_count * GPT_ENTRY_SIZE,
        r.1 == (header.entry_count * GPT_ENTRY_SIZE + LBA_SIZE - 1) / LBA_SIZE as int,
{
    let bytes = header.entry_count as u64 * GPT_ENTRY_SIZE as u64;
    (bytes, (bytes + LBA_SIZE - 1) / LBA_SIZE)
}

/// The partition entries of the array `array` that `header` describes: the array must match its
/// checksum, and unused entries and entries with an impossible range are skipped.
pub fn parse_entry_array(array: &[u8], header: &PrimaryGPTHeader) -> (r: Result<Vec<GPTPartitionEntry>, GPTError>)
    requires
        array@.len() == header.entry_count * GPT_ENTRY_SIZE,
    ensures
        spec_crc32(array@) != header.entry_array_crc ==> r == Err::<Vec<GPTPartitionEntry>, GPTError>(GPTError::BadPartition),
        spec_crc32(array@) == header.entry_array_crc ==> (r matches Ok(v)
            && v@.map_values(|e: GPTPartitionEntry| e@) == kept_entries(array@, header.entry_count as nat, *header)),
{
    if crc32(array) != header.entry_array_crc {
        return Err(GPTError::BadPartition);
    }
    let count = header.entry_count as usize;
    let alen = array.len();
    let mut res: Vec<GPTPartitionEntry> = Vec::new();
    let mut i: usize = 0;
    while i < count
        invariant
            count == header.entry_count,
            array@.len() == count * GPT_ENTRY_SIZE,
            alen == array@.len(),
            i <= count,
            res@.map_values(|e: GPTPartitionEntry| e@) == kept_entries(array@, i as nat, *header),
        decreases count - i,
    {
        proof {
            vstd::arithmetic::mul::lemma_mul_inequality(i as int + 1, count as int, GPT_ENTRY_SIZE as int);
        }
        let entry = GPTPartitionEntry::from_bytes(array, i * GPT_ENTRY_SIZE);
        let ghost before = res@;
        if !type_is_zero(&entry) && !(entry.start_lba > entry.end_lba || entry.start_lba < header.start_lba
            || entry.end_lba > header.end_lba) {
            res.push(entry);
            assert(res@.map_values(|e: GPTPartitionEntry| e@) =~= before.map_values(|e: GPTPartitionEntry| e@).push(entry@));
        }
        i = i + 1;
    }
    Ok(res)
}

/// Reads sector `lba` of the drive; a failed read is `IO`.
fn read_gpt_sector<D: StorageDrive>(drive: &mut D, lba: u64) -> (r: Result<[u8; 512], GPTError>)
    ensures
        final(drive).sectors() == old(drive).sectors(),
        r matches Ok(b) ==> lba < old(drive).sectors().len() && b == old(drive).sectors()[lba as int],
        r matches Err(e) ==> e == GPTError::IO,
        D::answers_all() && lba < old(drive).sectors().len() ==> r is Ok,
{
    match drive.read_sector(lba) {
        Ok(b) => Ok(b),
        Err(_) => Err(GPTError::IO),
    }
}

/// The capacity of the drive in bytes; one whose size overflows 64 bits is refused as `IO`.
fn capacity_of<D: StorageDrive>(drive: &D) -> (r: Result<u64, GPTError>)
    ensures
        r matches Ok(c) ==> c == drive.sectors().len() * LBA_SIZE,
        r matches Err(e) ==> e == GPTError::IO,
        drive.sectors().len() * LBA_SIZE <= u64::MAX ==> r is Ok,
{
    let n = drive.sector_count();
    if n > u64::MAX / LBA_SIZE {
        return Err(GPTError::IO);
    }
    Ok(n * LBA_SIZE)
}

/// The drive whose sectors are `s` has a protective MBR and holds in sector 1 the sound primary
/// header `h`: its signature, size, checksum and usable range are right.
pub open spec fn primary_sound(s: Seq<[u8; 512]>, h: PrimaryGPTHeader) -> bool {
    &&& s.len() >= 2
    &&& le_u16_at(s[0]@, 510) == 0xAA55
    &&& header_fields_match(h, s[1]@)
    &&& signature_ok(h)
    &&& size_ok(h)
    &&& checksum_ok(h, s[1]@)
    &&& range_ok(h, (s.len() * LBA_SIZE) as u64)
}

/// Two headers read from the same bytes pass the same checks.
proof fn lemma_same_header_checks(h: PrimaryGPTHeader, g: PrimaryGPTHeader, b: Seq<u8>, capacity: u64)
    requires
        header_fields_match(h, b),
        header_fields_match(g, b),
    ensures
        signature_ok(h) == signature_ok(g),
        size_ok(h) == size_ok(g),
        checksum_ok(h, b) == checksum_ok(g, b),
        range_ok(h, capacity) == range_ok(g, capacity),
{
}

/// Checks the drive's partition table (see [`check_primary`]): the protective MBR and the
/// primary header, falling back to the backup header (see [`attest_backup`]). A sound primary
/// header is the answer: the backup is only read when the primary fails its checks.
pub fn attest_integrity<D: StorageDrive>(drive: &mut D) -> (r: Result<PrimaryGPTHeader, GPTError>)
    ensures
        final(drive).sectors() == old(drive).sectors(),
        r matches Ok(h) ==> sound_header(old(drive).sectors(), h),
        r == Err::<PrimaryGPTHeader, GPTError>(GPTError::InvalidProtectiveMBR)
            ==> old(drive).sectors().len() > 0 && le_u16_at(old(drive).sectors()[0]@, 510) != 0xAA55,
        r matches Err(e) ==> e == GPTError::IO || e == GPTError::InvalidProtectiveMBR || e == GPTError::BadGPTHeader,
        forall|p: PrimaryGPTHeader| #[trigger] primary_sound(old(drive).sectors(), p)
            ==> (r matches Ok(h) ==> header_fields_match(h, old(drive).sectors()[1]@)),
        forall|p: PrimaryGPTHeader| #[trigger] primary_sound(old(drive).sectors(), p)
            && D::answers_all() && old(drive).sectors().len() * LBA_SIZE <= u64::MAX
            ==> (r matches Ok(h) && header_fields_match(h, old(drive).sectors()[1]@)),
{
    let ghost s = drive.sectors();
    let sector0 = read_gpt_sector(drive, 0)?;
    let sector1 = read_gpt_sector(drive, 1)?;
    let capacity = capacity_of(drive)?;
    let verdict = check_primary(&sector0, &sector1, capacity);
    proof {
        assert forall|p: PrimaryGPTHeader| #[trigger] primary_sound(s, p)
            implies (verdict matches Ok(PrimaryVerdict::Valid(h)) && header_fields_match(h, s[1]@)) by {
            assert(sector0@ == s[0]@);
            assert(sector1@ == s[1]@);
            match verdict {
                Ok(PrimaryVerdict::Valid(h)) => {},
                Ok(PrimaryVerdict::UseBackup) => {
                    let g = choose|g: PrimaryGPTHeader| header_fields_match(g, sector1@)
                        && (!signature_ok(g) || (size_ok(g) && (!checksum_ok(g, sector1@) || !range_ok(g, capacity))));
                    lemma_same_header_checks(g, p, sector1@, capacity);
                },
                Err(_) => {
                    let g = choose|g: PrimaryGPTHeader| header_fields_match(g, sector1@) && signature_ok(g) && !size_ok(g);
                    lemma_same_header_checks(g, p, sector1@, capacity);
                },
            }
        }
    }
    match verdict? {
        PrimaryVerdict::Valid(h) => Ok(h),
        PrimaryVerdict::UseBackup => attest_backup(drive),
    }
}

/// Checks the backup header in the drive's last sector (see [`check_backup`]).
pub fn attest_backup<D: StorageDrive>(drive: &mut D) -> (r: Result<PrimaryGPTHeader, GPTError>)
    ensures
        final(drive).sectors() == old(drive).sectors(),
        r matches Ok(h) ==> ({
            let s = old(drive).sectors();
            header_fields_match(h, s[s.len() - 1]@) && signature_ok(h) && size_ok(h)
                && checksum_ok(h, s[s.len() - 1]@) && range_ok(h, (s.len() * LBA_SIZE) as u64)
        }),
        r matches Err(e) ==> e == GPTError::IO || e == GPTError::BadGPTHeader,
{
    let capacity = capacity_of(drive)?;
    if capacity < LBA_SIZE {
        return Err(GPTError::IO);
    }
    let lba = backup_lba(capacity);
    let sector = read_gpt_sector(drive, lba)?;
    check_backup(&sector, capacity)
}

/// The `n` bytes stored from sector `start` on.
pub open spec fn drive_bytes(s: Seq<[u8; 512]>, start: int, n: int) -> Seq<u8> {
    Seq::new(n as nat, |k: int| s[start + k / 512]@[k % 512])
}

/// `h` is a sound header of the drive whose sectors are `s`: the primary header in sector 1,
/// or the backup header in the last sector, with its signature, size, checksum and range right.
pub open spec fn sound_header(s: Seq<[u8; 512]>, h: PrimaryGPTHeader) -> bool {
    let capacity = s.len() * LBA_SIZE;
    ||| (header_fields_match(h, s[1]@) && signature_ok(h) && size_ok(h) && checksum_ok(h, s[1]@)
            && range_ok(h, capacity as u64))
    ||| (header_fields_match(h, s[s.len() - 1]@) && signature_ok(h) && size_ok(h)
            && checksum_ok(h, s[s.len() - 1]@) && range_ok(h, capacity as u64))
}

/// The bytes of the partition entry array that `h` describes on `s`.
pub open spec fn entry_array(s: Seq<[u8; 512]>, h: PrimaryGPTHeader) -> Seq<u8> {
    drive_bytes(s, h.part_entry_lba as int, h.entry_count * GPT_ENTRY_SIZE)
}

/// Reads the partition entry array that `header` describes and enumerates its entries (see
/// [`parse_entry_array`]).
pub fn parse_partitions<D: StorageDrive>(drive: &mut D, header: PrimaryGPTHeader) -> (r: Result<Vec<GPTPartitionEntry>, GPTError>)
    ensures
        final(drive).sectors() == old(drive).sectors(),
        r matches Ok(v) ==> ({
            let array = entry_array(old(drive).sectors(), header);
            spec_crc32(array) == header.entry_array_crc
                && v@.map_values(|e: GPTPartitionEntry| e@) == kept_entries(array, header.entry_count as nat, header)
        }),
        r == Err::<Vec<GPTPartitionEntry>, GPTError>(GPTError::BadPartition)
            ==> spec_crc32(entry_array(old(drive).sectors(), header)) != header.entry_array_crc,
        r matches Err(e) ==> e == GPTError::IO || e == GPTError::BadPartition,
{
    let (bytes, sectors) = entry_array_extent(&header);
    let start = header.part_entry_lba;
    let mut array: Vec<u8> = Vec::new();
    let mut i: u64 = 0;
    while i < sectors
        invariant
            drive.sectors() == old(drive).sectors(),
            array@ == drive_bytes(old(drive).sectors(), start as int, i * 512),
            i <= sectors,
            sectors == (bytes + LBA_SIZE - 1) / LBA_SIZE as int,
        decreases sectors - i,
    {
        if start > u64::MAX - i {
            return Err(GPTError::IO);
        }
        let block = read_gpt_sector(drive, start + i)?;
        let mut j: usize = 0;
        while j < 512
            invariant
                j <= 512,
                block == old(drive).sectors()[start + i],
                array@ == drive_bytes(old(drive).sectors(), start as int, i * 512 + j),
            decreases 512 - j,
        {
            proof {
                vstd::arithmetic::div_mod::lemma_fundamental_div_mod_converse(i * 512 + j, 512, i as int, j as int);
            }
            array.push(block[j]);
            j = j + 1;
            assert(array@ =~= drive_bytes(old(drive).sectors(), start as int, i * 512 + j));
        }
        i = i + 1;
    }
    proof {
        vstd::arithmetic::div_mod::lemma_fundamental_div_mod(bytes + 511, 512);
        assert(i * 512 >= bytes) by (nonlinear_arith)
            requires i == (bytes + 511) / 512, (bytes + 511) == 512 * ((bytes + 511) / 512) + (bytes + 511) % 512,
                0 <= (bytes + 511) % 512 < 512;
    }
    array.truncate(bytes as usize);
    assert(array@ =~= drive_bytes(old(drive).sectors(), start as int, bytes as int));
    parse_entry_array(array.as_slice(), &header)
}

} // verus!
