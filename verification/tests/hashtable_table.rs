use maramos::fs::hashtable::HashFsError;
use maramos::lemoncc::image::LemonFS as ImageFS;
use maramos::fs::hashtable::drive::{MemDrive, StorageDrive};
use maramos::fs::hashtable::hash::name_to_hash;
use maramos::fs::hashtable::headers::{FileType, HashEntry, HashPointer, HashStatus};
use maramos::fs::hashtable::helpers::{Directory, File, FileName};
use maramos::fs::hashtable::table::{find, find_free_slot, new_directory_hash, new_file_hash, rename_hash, scan, tombstone};

/// A drive of `sectors` zeroed sectors whose superblock records a table of `slots` slots.
fn drive_with_table(sectors: usize, slots: u64) -> MemDrive {
    let mut d = MemDrive::new(sectors);
    let mut sb = [0u8; 512];
    sb[18..26].copy_from_slice(&slots.to_le_bytes());
    d.write_sector(0, &sb).unwrap();
    d
}

fn name(s: &str) -> FileName {
    FileName::from_str(s).unwrap()
}

fn home_slot(n: &FileName, slots: u64) -> HashPointer {
    HashPointer::new(name_to_hash(&n.0) % slots)
}

#[test]
fn a_new_file_goes_to_its_home_slot_and_is_found_there() {
    let mut d = drive_with_table(32, 24);
    let f = File { name: name("kernel.elf"), start: 100, size: 4096 };
    let slot = new_file_hash(&mut d, &f).unwrap();
    let home = home_slot(&f.name, 24);
    assert_eq!((slot.lba, slot.offset), (home.lba, home.offset));
    let e = slot.read(&mut d).unwrap();
    assert_eq!(e.status, HashStatus::Used);
    assert_eq!(e.type_, FileType::File);
    assert_eq!(e.start_block, 100);
    assert_eq!(e.file_size, 4096);
    let (first, more) = scan(&mut d, &f.name).unwrap();
    assert_eq!((first.lba, first.offset, more), (slot.lba, slot.offset, 0));
    let files = find(&mut d, &f.name, FileType::File).unwrap();
    assert_eq!(files.len(), 1);
    assert_eq!(find(&mut d, &f.name, FileType::Directory).unwrap_err(), HashFsError::FileNotFound);
}

#[test]
fn an_occupied_home_slot_sends_the_next_entry_on() {
    let mut d = drive_with_table(32, 24);
    let f = File { name: name("a"), start: 7, size: 1 };
    let first = new_file_hash(&mut d, &f).unwrap();
    let second = new_file_hash(&mut d, &f).unwrap();
    let expected = first.add(4, 1).unwrap();
    assert_eq!((second.lba, second.offset), (expected.lba, expected.offset));
    let (start, more) = scan(&mut d, &f.name).unwrap();
    assert_eq!((start.lba, start.offset, more), (first.lba, first.offset, 1));
    assert_eq!(find(&mut d, &f.name, FileType::File).unwrap().len(), 2);
}

#[test]
fn a_name_never_entered_is_not_found() {
    let mut d = drive_with_table(32, 24);
    assert_eq!(scan(&mut d, &name("missing")).unwrap_err(), HashFsError::FileNotFound);
    assert_eq!(find(&mut d, &name("missing"), FileType::File).unwrap_err(), HashFsError::FileNotFound);
}

#[test]
fn a_table_of_no_slots_is_an_io_error() {
    let mut d = drive_with_table(8, 0);
    assert_eq!(find_free_slot(&mut d, &name("x")).unwrap_err(), HashFsError::IO);
}

#[test]
fn tombstoned_slots_are_reused_and_skipped_by_scans() {
    let mut d = drive_with_table(32, 24);
    let f = File { name: name("old"), start: 9, size: 512 };
    let slot = new_file_hash(&mut d, &f).unwrap();
    tombstone(&mut d, slot).unwrap();
    assert_eq!(slot.read(&mut d).unwrap().status, HashStatus::Tombstone);
    assert_eq!(scan(&mut d, &f.name).unwrap_err(), HashFsError::FileNotFound);
    let again = find_free_slot(&mut d, &f.name).unwrap();
    assert_eq!((again.lba, again.offset), (slot.lba, slot.offset));
}

#[test]
fn renaming_moves_the_entry_to_the_new_name() {
    let mut d = drive_with_table(32, 24);
    let f = File { name: name("before"), start: 33, size: 1000 };
    let slot = new_file_hash(&mut d, &f).unwrap();
    let new_slot = rename_hash(&mut d, slot, &name("after")).unwrap();
    assert_eq!(scan(&mut d, &name("before")).unwrap_err(), HashFsError::FileNotFound);
    let e = new_slot.read(&mut d).unwrap();
    assert_eq!(e.status, HashStatus::Used);
    assert_eq!(e.name, name("after").0);
    assert_eq!(e.start_block, 33);
    assert_eq!(e.file_size, 1000);
    assert_eq!(find(&mut d, &name("after"), FileType::File).unwrap().len(), 1);
}

#[test]
fn a_directory_lists_and_loses_children() {
    let mut d = drive_with_table(32, 24);
    let dir = Directory { name: name("etc"), hash: HashPointer { lba: 0, offset: 0 }, start: 20, children: Vec::new() };
    let dslot = new_directory_hash(&mut d, &dir).unwrap();
    // Its first block lists two children, in slots 1 and 4.
    let mut block = [0u8; 512];
    block[9..17].copy_from_slice(&5u64.to_le_bytes());
    block[17] = 2;
    block[36..44].copy_from_slice(&6u64.to_le_bytes());
    block[44] = 3;
    d.write_sector(20, &block).unwrap();
    let mut loaded = Directory::from_ptr(dslot, &mut d).unwrap();
    assert_eq!(loaded.start, 20);
    assert_eq!(loaded.children.len(), 2);
    assert_eq!((loaded.children[0].lba, loaded.children[0].offset), (5, 2));
    assert_eq!((loaded.children[1].lba, loaded.children[1].offset), (6, 3));
    loaded.remove_child(&mut d, HashPointer { lba: 5, offset: 2 }).unwrap();
    assert_eq!(loaded.children.len(), 1);
    let reread = Directory::from_ptr(dslot, &mut d).unwrap();
    assert_eq!(reread.children.len(), 1);
    assert_eq!((reread.children[0].lba, reread.children[0].offset), (6, 3));
    assert_eq!(loaded.remove_child(&mut d, HashPointer { lba: 5, offset: 2 }).unwrap_err(), HashFsError::FileNotFound);
}

#[test]
fn a_file_entry_is_not_a_directory() {
    let mut d = drive_with_table(32, 24);
    let f = File { name: name("plain"), start: 3, size: 10 };
    let slot = new_file_hash(&mut d, &f).unwrap();
    assert_eq!(Directory::from_ptr(slot, &mut d).err(), Some(HashFsError::IsFile));
}

#[test]
fn entries_keep_their_fields_through_the_table() {
    let mut d = drive_with_table(32, 24);
    let mut slot = HashPointer::new(3);
    let mut e = HashEntry::new(FileType::Directory, name("x").0, 77, 0);
    e.link.ptr = 12;
    e.link.size = 512;
    slot.write(&mut d, e).unwrap();
    let back = slot.read(&mut d).unwrap();
    assert_eq!(back.type_, FileType::Directory);
    assert_eq!(back.start_block, 77);
    assert_eq!((back.link.ptr, back.link.size), (12, 512));
}

#[test]
fn children_fill_the_first_block_then_a_new_linked_block() {
    let fs = match ImageFS::format(MemDrive::new(2000)) {
        Ok(fs) => fs,
        Err(e) => panic!("{:?}", e),
    };
    let mut d = fs.into_drive();
    // A directory whose first block is a free data sector.
    let dir = Directory { name: name("etc"), hash: HashPointer { lba: 0, offset: 0 }, start: 1500, children: Vec::new() };
    let dslot = new_directory_hash(&mut d, &dir).unwrap();
    let mut loaded = Directory::from_ptr(dslot, &mut d).unwrap();
    for i in 0..57u64 {
        loaded.add_child(&mut d, HashPointer { lba: 1 + i / 6, offset: (i % 6) as u8 }).unwrap();
    }
    assert_eq!(loaded.children.len(), 57);
    let first = d.read_sector(1500).unwrap();
    assert_eq!(u64::from_le_bytes(first[0..8].try_into().unwrap()), 1);
    assert_eq!(u64::from_le_bytes(first[55 * 9..55 * 9 + 8].try_into().unwrap()), 10);
    let reread = Directory::from_ptr(dslot, &mut d).unwrap();
    assert_eq!(reread.children.len(), 57);
    assert_eq!((reread.children[56].lba, reread.children[56].offset), (10, 2));
}

#[test]
fn tombstoning_twice_leaves_the_drive_as_once() {
    let mut d = drive_with_table(32, 24);
    let f = File { name: name("twice"), start: 40, size: 100 };
    let slot = new_file_hash(&mut d, &f).unwrap();
    tombstone(&mut d, slot).unwrap();
    let once: Vec<[u8; 512]> = (0..32u64).map(|l| d.read_sector(l).unwrap()).collect();
    tombstone(&mut d, slot).unwrap();
    let twice: Vec<[u8; 512]> = (0..32u64).map(|l| d.read_sector(l).unwrap()).collect();
    assert!(once == twice);
    let e = slot.read(&mut d).unwrap();
    assert_eq!(e.status, HashStatus::Tombstone);
    assert_eq!((e.start_block, e.file_size), (40, 100));
}

#[test]
fn an_entry_written_through_a_pointer_reads_back() {
    let mut d = drive_with_table(32, 24);
    let mut slot = HashPointer::new(7);
    let neighbour = HashPointer::new(8);
    let before = neighbour.read(&mut d).unwrap();
    let mut name = [0u8; 40];
    name[..4].copy_from_slice(b"boot");
    let e = HashEntry::new(FileType::Directory, name, 77, 1024);
    slot.write(&mut d, e).unwrap();
    let back = slot.read(&mut d).unwrap();
    assert_eq!(back.status, e.status);
    assert_eq!(back.type_, FileType::Directory);
    assert_eq!(back.name, name);
    assert_eq!((back.start_block, back.file_size), (77, 1024));
    assert_eq!((back.link.ptr, back.link.size), (e.link.ptr, e.link.size));
    let after = neighbour.read(&mut d).unwrap();
    assert_eq!((after.status, after.start_block), (before.status, before.start_block));
}
