use maramos::fs::hashtable::drive::{MemDrive, StorageDrive};
use maramos::fs::hashtable::HashFsError;
use maramos::fs::hashtable::cache::DirectoryCache;
use maramos::fs::hashtable::hash::{bytes_to_name, hash_name, name_eq, name_to_bytes, name_to_hash, name_to_str, stored_name_len};
use maramos::fs::hashtable::headers::{u64_div_ceil, Bitmap, DirectoryEntry, FileType, HashEntry, HashPointer, HashStatus, LinkBlock, LinkEntry, SuperBlock};
use maramos::fs::hashtable::helpers::{find_free_dentry_slot, FileName, Path};

fn dummy_entry(name: &str, start: u64) -> HashEntry {
    let mut bytes = [0u8; 40];
    bytes[..name.len()].copy_from_slice(name.as_bytes());
    HashEntry::new(FileType::File, bytes, start, 4096)
}

#[test]
fn fnv_hash_of_names() {
    let mut root = [0u8; 40];
    root[0] = b'/';
    assert_eq!(name_to_hash(&root), 0x6065_8B47_A13C_0E2A);
    assert_eq!(name_to_hash(&[0u8; 40]), 0xDFDE_62FB_EA62_07E5);
    assert_eq!(hash_name("hello.txt"), 0xA8E1_7E80_9E57_CD9F);
    assert_eq!(hash_name("/"), name_to_hash(&root));
    assert_eq!(hash_name("hello.txt"), hash_name("hello.txt"));
    assert_ne!(hash_name("foo"), hash_name("bar"));
    assert_ne!(hash_name(""), 0);
}

#[test]
fn name_encoding() {
    let bytes = name_to_bytes("foo").unwrap();
    assert_eq!(&bytes[..3], b"foo");
    assert!(bytes[3..].iter().all(|&b| b == 0));
    let long = "a".repeat(40);
    assert_eq!(&name_to_bytes(&long).unwrap()[..], long.as_bytes());
    assert_eq!(name_to_bytes(""), Err(HashFsError::InvalidFilename));
    assert_eq!(name_to_bytes(&"a".repeat(41)), Err(HashFsError::InvalidFilename));
}

#[test]
fn name_decoding() {
    let bytes = name_to_bytes("hello world").unwrap();
    assert_eq!(name_to_str(&bytes), "hello world");
    assert_eq!(name_to_str(&[0u8; 43]), "");
    assert_eq!(bytes_to_name(&bytes), "hello world");
    assert_eq!(stored_name_len(&bytes), 11);
    assert_eq!(stored_name_len(&[1u8; 40]), 40);
    let mut bad = [0u8; 40];
    bad[0] = 0xFF;
    assert_eq!(bytes_to_name(&bad), "");
    let m = name_to_bytes("match").unwrap();
    assert!(name_eq(&m, "match"));
    assert!(!name_eq(&m, "nomatch"));
    assert!(!name_eq(&m, "matchx"));
}

#[test]
fn filename_and_paths() {
    assert_eq!(FileName::from_str("a.txt").unwrap().inner(), "a.txt");
    assert_eq!(FileName::from_str(""), Err(HashFsError::InvalidFilename));
    assert_eq!(FileName::root().inner(), "/");
    let p = Path::from_str("/usr/bin/ls");
    assert_eq!(p.to_dir_vec(), vec!["", "usr", "bin", "ls"]);
    assert_eq!(p.parent().as_str(), "/usr/bin");
    assert_eq!(p.file_name(), "ls");
    assert_eq!(Path::from_str("ls").parent().as_str(), "/");
    assert_eq!(Path::from_str("ls").file_name(), "ls");
    assert_eq!(Path::from_str("/ls").parent().as_str(), "");
}

#[test]
fn hashtable_superblock_layout() {
    let sb = SuperBlock::new(512 * 100_000);
    assert_eq!(sb.total_blocks, 100_000);
    assert_eq!(sb.hashmap_size, 4096);
    assert_eq!(sb.bitmap_start(), 1 + 683);
    assert_eq!(sb.bitmap_size, (100_000 - 684 + 4095) / 4096);
    assert_eq!(sb.data_start(), 684 + sb.bitmap_size);
    assert_eq!(SuperBlock::new(512 * 50_000_000).hashmap_size, 5000);
    assert_eq!(u64_div_ceil(10, 3), 4);
    assert_eq!(u64_div_ceil(9, 3), 3);
    assert_eq!(u64_div_ceil(0, 3), 0);
}

#[test]
fn hash_pointers() {
    let p = HashPointer::new(13);
    assert_eq!((p.lba(), p.offset), (3, 1));
    let q = p.add(10, 7).unwrap();
    assert_eq!((q.lba, q.offset), (4, 2));
    assert!(p.add(3, 5).is_none());
    assert!(p.is_valid());
    assert!(!HashPointer { lba: 0, offset: 0 }.is_valid());
    let l = LinkEntry { ptr: 5, size: 0 };
    assert!(l.is_valid() && !l.is_direct());
    assert!(LinkBlock::new().entries.iter().all(|e| !e.is_valid()));
}

#[test]
fn statuses_and_types() {
    assert_eq!(HashStatus::Unused.as_byte(), 0);
    assert_eq!(HashStatus::Used.as_byte(), 1);
    assert_eq!(HashStatus::Tombstone.as_byte(), 255);
    assert_eq!(FileType::from(0), FileType::File);
    assert_eq!(FileType::from(1), FileType::Directory);
    assert_eq!(FileType::from(2), FileType::Unknown);
    assert_eq!(FileType::from(255), FileType::Unknown);
    assert_eq!(FileType::Directory.as_byte(), 1);
}

#[test]
fn bitmap_bits() {
    let bm = Bitmap::new();
    assert!(bm.entries.iter().all(|&b| b == 0));
    let mut b = Bitmap::new();
    for &i in &[0usize, 1, 7, 8, 63, 64, 127, 128, 255, 4095] {
        b.set(i, true).unwrap();
    }
    for &i in &[0usize, 1, 7, 8, 63, 64, 127, 128, 255, 4095] {
        assert!(b.check(i).unwrap());
    }
    b.set(63, false).unwrap();
    assert!(!b.check(63).unwrap());
    assert!(b.check(64).unwrap());
    assert_eq!(b.check(4096), Err(HashFsError::IO));
    assert_eq!(b.set(4096, true), Err(HashFsError::IO));
    assert_eq!(b.byte_index(10), (1, 4));
}

#[test]
fn free_dentry_slot() {
    let mut d = DirectoryEntry::new();
    assert_eq!(find_free_dentry_slot(&d), Some(0));
    d.entries[0] = HashPointer::new(0);
    d.entries[1] = HashPointer::new(1);
    assert_eq!(find_free_dentry_slot(&d), Some(2));
    for i in 0..56 {
        d.entries[i] = HashPointer::new(i as u64);
    }
    assert_eq!(find_free_dentry_slot(&d), None);
}

#[test]
fn cache_lookup_and_update() {
    let mut c = DirectoryCache::new();
    assert!(c.lookup(0, "x").is_none());
    c.insert(0, &dummy_entry("test.txt", 100));
    assert_eq!(c.lookup(0, "test.txt").map(|e| e.start_block), Some(100));
    assert!(c.lookup(1, "test.txt").is_none());
    c.insert(0, &dummy_entry("test.txt", 200));
    assert_eq!(c.lookup(0, "test.txt").map(|e| e.start_block), Some(200));
    c.remove(0, "test.txt");
    assert!(c.lookup(0, "test.txt").is_none());
}

#[test]
fn cache_many_entries() {
    let mut c = DirectoryCache::new();
    for i in 0..10u64 {
        c.insert(0, &dummy_entry(&format!("f{}", i), i * 100));
    }
    for i in 0..10u64 {
        assert_eq!(c.lookup(0, &format!("f{}", i)).map(|e| e.start_block), Some(i * 100));
    }
    c.remove(0, "f3");
    assert!(c.lookup(0, "f3").is_none());
    assert_eq!(c.lookup(0, "f9").map(|e| e.start_block), Some(900));
}

#[test]
fn cache_evicts_least_recently_used() {
    let mut c = DirectoryCache::new();
    for i in 0..128u64 {
        c.insert(0, &dummy_entry(&format!("k{}", i), i));
    }
    assert!(c.lookup(0, "k0").is_some());
    c.insert(0, &dummy_entry("new", 999));
    assert_eq!(c.lookup(0, "new").map(|e| e.start_block), Some(999));
    assert!(c.lookup(0, "k0").is_some());
    assert!(c.lookup(0, "k1").is_none());
    assert!(c.lookup(0, "k2").is_some());
}

#[test]
fn a_memory_drive_reads_back_what_was_written() {
    let mut d = MemDrive::new(4);
    assert_eq!(d.sector_count(), 4);
    assert_eq!(d.read_sector(0).unwrap(), [0u8; 512]);
    d.write_sector(2, &[7u8; 512]).unwrap();
    assert_eq!(d.read_sector(2).unwrap(), [7u8; 512]);
    assert_eq!(d.read_sector(1).unwrap(), [0u8; 512]);
    assert!(d.read_sector(4).is_err());
    assert!(d.write_sector(4, &[1u8; 512]).is_err());
}

#[test]
fn a_memory_drive_grows_by_zeroed_sectors() {
    let mut d = MemDrive::new(2);
    d.write_sector(1, &[7u8; 512]).unwrap();
    d.grow(3).unwrap();
    assert_eq!(d.sector_count(), 5);
    assert_eq!(d.read_sector(1).unwrap(), [7u8; 512]);
    assert_eq!(d.read_sector(4).unwrap(), [0u8; 512]);
    assert!(d.read_sector(5).is_err());
}
