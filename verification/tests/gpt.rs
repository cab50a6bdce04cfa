use maramos::gpt::GPTError;
use maramos::gpt::headers::{GPTPartitionEntry, PrimaryGPTHeader, ProtectiveMBR};
use maramos::gpt::partition::{backup_lba, check_backup, check_primary, entry_array_extent, header_checksum, parse_entry_array, PrimaryVerdict, EFI_GUID};
use maramos::gpt::partition_drive::{name_of, partition_blocks, translate_lba, PartitionType, LEMONFS_GUID};
use maramos::library::crc32::crc32;
use maramos::fs::hashtable::drive::StorageDrive;
use maramos::gpt::partition_drive::PartitionDrive;

const CAPACITY: u64 = 512 * 4096;

fn mbr() -> Vec<u8> {
    let mut s = vec![0u8; 512];
    s[450] = 0xEE;
    s[510] = 0x55;
    s[511] = 0xAA;
    s
}

fn header(start: u64, end: u64, count: u32, array_crc: u32) -> Vec<u8> {
    let mut h = vec![0u8; 512];
    h[..8].copy_from_slice(b"EFI PART");
    h[8..12].copy_from_slice(&0x0001_0000u32.to_le_bytes());
    h[12..16].copy_from_slice(&92u32.to_le_bytes());
    h[24..32].copy_from_slice(&1u64.to_le_bytes());
    h[32..40].copy_from_slice(&4095u64.to_le_bytes());
    h[40..48].copy_from_slice(&start.to_le_bytes());
    h[48..56].copy_from_slice(&end.to_le_bytes());
    h[72..80].copy_from_slice(&2u64.to_le_bytes());
    h[80..84].copy_from_slice(&count.to_le_bytes());
    h[84..88].copy_from_slice(&128u32.to_le_bytes());
    h[88..92].copy_from_slice(&array_crc.to_le_bytes());
    let c = crc32(&h[..92]);
    h[16..20].copy_from_slice(&c.to_le_bytes());
    h
}

fn entry(ty: [u8; 16], start: u64, end: u64, name: &str) -> Vec<u8> {
    let mut e = vec![0u8; 128];
    e[..16].copy_from_slice(&ty);
    e[32..40].copy_from_slice(&start.to_le_bytes());
    e[40..48].copy_from_slice(&end.to_le_bytes());
    for (i, u) in name.encode_utf16().enumerate() {
        e[56 + 2 * i..58 + 2 * i].copy_from_slice(&u.to_le_bytes());
    }
    e
}

#[test]
fn parses_mbr_and_header_fields() {
    let m = ProtectiveMBR::from_bytes(&mbr());
    assert_eq!(m.boot_sig, 0xAA55);
    assert_eq!(m.partition_entry.os_type, 0xEE);
    let h = PrimaryGPTHeader::from_bytes(&header(34, 4000, 4, 7));
    assert_eq!(&h.signature, b"EFI PART");
    assert_eq!(h.size, 92);
    assert_eq!(h.start_lba, 34);
    assert_eq!(h.end_lba, 4000);
    assert_eq!(h.entry_count, 4);
    assert_eq!(h.entry_array_crc, 7);
}

#[test]
fn primary_header_verdicts() {
    let good = header(34, 4000, 4, 0);
    match check_primary(&mbr(), &good, CAPACITY) {
        Ok(PrimaryVerdict::Valid(h)) => assert_eq!(h.end_lba, 4000),
        _ => panic!("valid header refused"),
    }
    let mut bad_mbr = mbr();
    bad_mbr[510] = 0;
    assert!(matches!(check_primary(&bad_mbr, &good, CAPACITY), Err(GPTError::InvalidProtectiveMBR)));
    let mut no_sig = good.clone();
    no_sig[0] = b'X';
    assert!(matches!(check_primary(&mbr(), &no_sig, CAPACITY), Ok(PrimaryVerdict::UseBackup)));
    let mut bad_crc = good.clone();
    bad_crc[60] ^= 1;
    assert!(matches!(check_primary(&mbr(), &bad_crc, CAPACITY), Ok(PrimaryVerdict::UseBackup)));
    let too_far = header(34, 5000, 4, 0);
    assert!(matches!(check_primary(&mbr(), &too_far, CAPACITY), Ok(PrimaryVerdict::UseBackup)));
    let mut small = good.clone();
    small[12..16].copy_from_slice(&80u32.to_le_bytes());
    assert!(matches!(check_primary(&mbr(), &small, CAPACITY), Err(GPTError::BadGPTHeader)));
}

#[test]
fn backup_header_checks() {
    assert_eq!(backup_lba(CAPACITY), 4095);
    assert!(check_backup(&header(34, 4000, 4, 0), CAPACITY).is_ok());
    assert!(matches!(check_backup(&header(34, 5000, 4, 0), CAPACITY), Err(GPTError::BadGPTHeader)));
    assert!(matches!(check_backup(&header(4001, 4000, 4, 0), CAPACITY), Err(GPTError::BadGPTHeader)));
}

#[test]
fn header_checksum_zeroes_its_field() {
    let h = header(34, 4000, 4, 0);
    let stored = u32::from_le_bytes([h[16], h[17], h[18], h[19]]);
    assert_eq!(header_checksum(&h, 92), stored);
}

#[test]
fn partition_entries_filtered() {
    let mut array = Vec::new();
    array.extend(entry(LEMONFS_GUID, 100, 200, "lemon"));
    array.extend(entry([0u8; 16], 0, 0, ""));
    array.extend(entry(EFI_GUID, 50, 40, "bad"));
    array.extend(entry(EFI_GUID, 300, 3999, "EFI"));
    let crc = crc32(&array);
    let h = PrimaryGPTHeader::from_bytes(&header(34, 4000, 4, crc));
    assert_eq!(entry_array_extent(&h), (512, 1));
    let parts = parse_entry_array(&array, &h).unwrap();
    assert_eq!(parts.len(), 2);
    assert_eq!(parts[0].start_lba, 100);
    assert_eq!(parts[1].start_lba, 300);
    assert_eq!(name_of(&parts[0]), "lemon");
    assert_eq!(PartitionType::classify(&parts[0].partition_type), PartitionType::LemonFS);
    assert_eq!(PartitionType::classify(&parts[1].partition_type), PartitionType::Reserved);
    assert_eq!(PartitionType::classify(&[1u8; 16]), PartitionType::Unknown);
    let h_bad = PrimaryGPTHeader::from_bytes(&header(34, 4000, 4, crc ^ 1));
    assert!(matches!(parse_entry_array(&array, &h_bad), Err(GPTError::BadPartition)));
}

#[test]
fn partition_geometry() {
    let e = GPTPartitionEntry::from_bytes(&entry(LEMONFS_GUID, 2048, 2048 + 102400 - 1, "p"), 0);
    assert_eq!(partition_blocks(&e), 102400);
    let one = GPTPartitionEntry::from_bytes(&entry(LEMONFS_GUID, 100, 100, "p"), 0);
    assert_eq!(partition_blocks(&one), 1);
    assert_eq!(translate_lba(2048, 100, 10, 5), Some(2058));
    assert_eq!(translate_lba(2048, 100, 98, 5), None);
}

#[test]
fn partition_names_skip_surrogates() {
    let mut raw = entry(LEMONFS_GUID, 1, 2, "");
    let units: [u16; 4] = [0x41, 0xD800, 0x42, 0];
    for (i, u) in units.iter().enumerate() {
        raw[56 + 2 * i..58 + 2 * i].copy_from_slice(&u.to_le_bytes());
    }
    raw[56 + 8..58 + 8].copy_from_slice(&0x43u16.to_le_bytes());
    let e = GPTPartitionEntry::from_bytes(&raw, 0);
    assert_eq!(name_of(&e), "AB");
}

fn drive_with(sectors: &[(u64, Vec<u8>)], count: usize) -> maramos::fs::hashtable::drive::MemDrive {
    let mut d = maramos::fs::hashtable::drive::MemDrive::new(count);
    for (lba, bytes) in sectors {
        let mut s = [0u8; 512];
        s[..bytes.len()].copy_from_slice(bytes);
        d.write_sector(*lba, &s).unwrap();
    }
    d
}

fn table() -> (Vec<u8>, u32) {
    let mut array = Vec::new();
    array.extend(entry(LEMONFS_GUID, 100, 199, "lemon"));
    array.extend(entry([0u8; 16], 0, 0, ""));
    array.extend(entry(EFI_GUID, 300, 3999, "EFI"));
    array.extend(entry([0u8; 16], 0, 0, ""));
    let crc = crc32(&array);
    (array, crc)
}

#[test]
fn a_drive_with_a_sound_primary_header() {
    let (array, crc) = table();
    let mut d = drive_with(&[(0, mbr()), (1, header(34, 4000, 4, crc)), (2, array)], 4096);
    let h = maramos::gpt::partition::attest_integrity(&mut d).unwrap();
    assert_eq!(h.end_lba, 4000);
    let parts = maramos::gpt::test_gpt(&mut d).unwrap();
    assert_eq!(parts.len(), 2);
    assert_eq!(name_of(&parts[1]), "EFI");
    let drives = maramos::gpt::parse_gpt(d).unwrap();
    assert_eq!(drives.len(), 2);
    assert_eq!(drives[0].start_lba, 100);
    assert_eq!(drives[0].blocks, 100);
    assert_eq!(drives[0].type_, PartitionType::LemonFS);
    assert_eq!(drives[1].name, "EFI");
}

#[test]
fn a_corrupt_primary_header_falls_back_to_the_backup() {
    let (array, crc) = table();
    let mut bad = header(34, 4000, 4, crc);
    bad[20] ^= 0xFF;
    bad[16] ^= 1;
    let mut d = drive_with(&[(0, mbr()), (1, bad), (2, array.clone()), (4095, header(34, 4000, 4, crc))], 4096);
    let h = maramos::gpt::partition::attest_integrity(&mut d).unwrap();
    assert_eq!(h.start_lba, 34);
    let mut no_backup = drive_with(&[(0, mbr()), (1, vec![0u8; 512])], 4096);
    assert!(matches!(maramos::gpt::partition::attest_integrity(&mut no_backup), Err(GPTError::BadGPTHeader)));
    let mut no_mbr = drive_with(&[(1, header(34, 4000, 4, crc))], 4096);
    assert!(matches!(maramos::gpt::partition::attest_integrity(&mut no_mbr), Err(GPTError::InvalidProtectiveMBR)));
    let mut tiny = maramos::fs::hashtable::drive::MemDrive::new(1);
    assert!(matches!(maramos::gpt::partition::attest_integrity(&mut tiny), Err(GPTError::IO)));
}

#[test]
fn a_partition_is_a_window_on_its_drive() {
    let d = drive_with(&[(101, vec![9u8; 512])], 300);
    let e = GPTPartitionEntry::from_bytes(&entry(LEMONFS_GUID, 100, 199, "p"), 0);
    let mut p = PartitionDrive::from_partition(d, &e);
    assert_eq!(p.sector_count(), 100);
    assert_eq!(p.read_sector(1).unwrap(), [9u8; 512]);
    assert!(p.read_sector(100).is_err());
    p.write_sector(5, &[3u8; 512]).unwrap();
    assert_eq!(p.parent.read_sector(105).unwrap(), [3u8; 512]);
}

#[test]
fn parse_gpt_skips_a_partition_that_ends_before_it_starts() {
    let mut array = Vec::new();
    array.extend(entry(LEMONFS_GUID, 500, 400, "upside"));
    array.extend(entry([0u8; 16], 0, 0, ""));
    array.extend(entry([0u8; 16], 0, 0, ""));
    array.extend(entry([0u8; 16], 0, 0, ""));
    let crc = crc32(&array);
    let d = drive_with(&[(0, mbr()), (1, header(34, 4000, 4, crc)), (2, array)], 4096);
    let parts = maramos::gpt::parse_gpt(d).unwrap();
    assert_eq!(parts.len(), 0);
}

#[test]
fn parse_gpt_refuses_an_entry_array_that_fails_its_checksum() {
    let (array, crc) = table();
    let d = drive_with(&[(0, mbr()), (1, header(34, 4000, 4, crc ^ 1)), (2, array)], 4096);
    assert!(matches!(maramos::gpt::parse_gpt(d), Err(GPTError::BadPartition)));
}

#[test]
fn parse_gpt_refuses_a_drive_without_a_protective_mbr() {
    let (array, crc) = table();
    let d = drive_with(&[(1, header(34, 4000, 4, crc)), (2, array)], 4096);
    assert!(matches!(maramos::gpt::parse_gpt(d), Err(GPTError::InvalidProtectiveMBR)));
}
