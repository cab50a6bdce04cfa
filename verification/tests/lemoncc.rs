use maramos::fs::hashtable::drive::{MemDrive, StorageDrive};
use maramos::lemoncc::ImageError;
use maramos::lemoncc::disk::{HashEntry, HashPointer, SuperBlock, LEMONFS_MAGIC};
use maramos::lemoncc::dirs::dir_remove_child;
use maramos::lemoncc::space::free_blocks;
use maramos::lemoncc::table::find_free_slot;
use maramos::lemoncc::image::{existing_file, LemonFS};
use maramos::lemoncc::paths::{name_field, path_components, path_last_piece, trim_slashes};

fn fresh(sectors: usize) -> LemonFS<MemDrive> {
    match LemonFS::format(MemDrive::new(sectors)) {
        Ok(fs) => fs,
        Err(e) => panic!("format failed: {:?}", e),
    }
}

#[test]
fn format_lays_out_a_small_image() {
    let fs = fresh(1000);
    let sb = fs.superblock();
    assert_eq!(sb.magic, LEMONFS_MAGIC);
    assert_eq!(sb.version, 2);
    assert_eq!(sb.total_blocks, 1000);
    assert_eq!(sb.hashmap_size, 4096);
    // 1 superblock + ceil(4096 / 6) = 683 table sectors, the rest under one bitmap sector.
    assert_eq!(sb.bitmap_start(), 684);
    assert_eq!(sb.bitmap_size, 1);
    assert_eq!(sb.data_start(), 685);
    let mut drive = fs.into_drive();
    let sector0 = drive.read_sector(0).unwrap();
    let back = SuperBlock::from_sector(&sector0);
    assert_eq!(back.total_blocks, 1000);
    assert_eq!(back.magic, LEMONFS_MAGIC);
    // The root directory's sector is marked used.
    let bitmap = drive.read_sector(684).unwrap();
    assert_eq!(bitmap[0], 1);
    assert!(bitmap[1..].iter().all(|&b| b == 0));
}

#[test]
fn format_refuses_a_tiny_drive() {
    assert!(matches!(LemonFS::format(MemDrive::new(2)), Err(ImageError::TooSmall)));
    assert!(matches!(LemonFS::format(MemDrive::new(0)), Err(ImageError::TooSmall)));
}

#[test]
fn format_needs_room_for_the_root_directory() {
    // 684 sectors leave no bitmap sector.
    assert!(matches!(LemonFS::format(MemDrive::new(684)), Err(ImageError::Io)));
    // At 685 the root directory's sector lies just past the end, and the drive grows by it.
    let fs = fresh(685);
    assert_eq!(fs.superblock().data_start(), 685);
    assert_eq!(fs.superblock().total_blocks, 685);
    let mut drive = fs.into_drive();
    assert_eq!(drive.sector_count(), 686);
    assert_eq!(drive.read_sector(685).unwrap(), [0u8; 512]);
    let fs = fresh(686);
    assert_eq!(fs.superblock().data_start(), 685);
    assert_eq!(fs.into_drive().sector_count(), 686);
}

#[test]
fn open_formats_an_unformatted_drive_once() {
    let (fs, formatted) = match LemonFS::open(MemDrive::new(900)) {
        Ok(x) => x,
        Err(e) => panic!("{:?}", e),
    };
    assert!(formatted);
    let (mut fs2, formatted2) = match LemonFS::open(fs.into_drive()) {
        Ok(x) => x,
        Err(e) => panic!("{:?}", e),
    };
    assert!(!formatted2);
    assert_eq!(fs2.superblock().total_blocks, 900);
    assert_eq!(fs2.list_directory("/").unwrap(), Vec::<String>::new());
}

#[test]
fn write_then_read_gives_the_data_back() {
    let mut fs = fresh(1000);
    let data: Vec<u8> = (0..1300u32).map(|i| (i % 251) as u8).collect();
    fs.write_file("/prog.elf", &data).unwrap();
    assert_eq!(fs.read_file("/prog.elf").unwrap(), data);
    assert_eq!(fs.file_size("prog.elf").unwrap(), 1300);
    assert_eq!(fs.list_directory("/").unwrap(), vec!["prog.elf".to_string()]);
}

#[test]
fn empty_file_has_no_bytes() {
    let mut fs = fresh(1000);
    fs.write_file("/empty", &[]).unwrap();
    assert_eq!(fs.read_file("/empty").unwrap(), Vec::<u8>::new());
    assert_eq!(fs.file_size("/empty").unwrap(), 0);
}

#[test]
fn overwrite_shorter_and_longer() {
    let mut fs = fresh(1000);
    fs.write_file("/a.txt", &[7u8; 2000]).unwrap();
    fs.write_file("/a.txt", b"short").unwrap();
    assert_eq!(fs.read_file("/a.txt").unwrap(), b"short".to_vec());
    let long: Vec<u8> = (0..3000u32).map(|i| (i % 13) as u8).collect();
    fs.write_file("/a.txt", &long).unwrap();
    assert_eq!(fs.read_file("/a.txt").unwrap(), long);
    assert_eq!(fs.list_directory("/").unwrap(), vec!["a.txt".to_string()]);
}

#[test]
fn nested_paths_create_their_directories() {
    let mut fs = fresh(1000);
    fs.write_file("/bin/init.elf", b"\x7fELF").unwrap();
    assert_eq!(fs.read_file("/bin/init.elf").unwrap(), b"\x7fELF".to_vec());
    assert_eq!(fs.list_directory("/").unwrap(), vec!["bin".to_string()]);
    // Listing a path lists the directory that holds its last component.
    assert_eq!(fs.list_directory("/bin/init.elf").unwrap(), vec!["init.elf".to_string()]);
    assert_eq!(fs.read_file("/bin"), Err(ImageError::NotAFile));
    assert_eq!(fs.write_file("/bin", b"x"), Err(ImageError::IsADirectory));
}

#[test]
fn root_paths_are_refused() {
    let mut fs = fresh(1000);
    assert_eq!(fs.write_file("/", b"x"), Err(ImageError::RootPath));
    assert_eq!(fs.write_file("///", b"x"), Err(ImageError::RootPath));
    assert_eq!(fs.read_file("/"), Err(ImageError::RootPath));
    assert_eq!(fs.file_size(""), Err(ImageError::RootPath));
    assert_eq!(fs.remove_file("/"), Err(ImageError::RootPath));
    assert_eq!(fs.move_("/", "/x"), Err(ImageError::RootPath));
}

#[test]
fn missing_files_are_not_found() {
    let mut fs = fresh(1000);
    assert_eq!(fs.read_file("/nothing"), Err(ImageError::NotFound));
    assert_eq!(fs.file_size("/nothing"), Err(ImageError::NotFound));
    assert_eq!(fs.remove_file("/nothing"), Err(ImageError::NotFound));
}

#[test]
fn long_names_are_invalid() {
    let mut fs = fresh(1000);
    let long = format!("/{}", "x".repeat(41));
    assert_eq!(fs.write_file(&long, b"x"), Err(ImageError::InvalidFilename));
    assert!(matches!(name_field(""), Err(ImageError::InvalidFilename)));
    let field = name_field("init").unwrap();
    assert_eq!(&field[..4], b"init");
    assert!(field[4..].iter().all(|&b| b == 0));
}

#[test]
fn remove_frees_the_name() {
    let mut fs = fresh(1000);
    fs.write_file("/gone", &[1u8; 700]).unwrap();
    fs.remove_file("/gone").unwrap();
    assert_eq!(fs.read_file("/gone"), Err(ImageError::NotFound));
    assert_eq!(fs.list_directory("/").unwrap(), Vec::<String>::new());
    fs.write_file("/gone", b"again").unwrap();
    assert_eq!(fs.read_file("/gone").unwrap(), b"again".to_vec());
}

#[test]
fn move_renames_and_moves_into_directories() {
    let mut fs = fresh(1000);
    fs.write_file("/old.txt", b"payload").unwrap();
    fs.move_("/old.txt", "/new.txt").unwrap();
    assert_eq!(fs.list_directory("/").unwrap(), vec!["new.txt".to_string()]);
    assert_eq!(fs.read_file("/new.txt").unwrap(), b"payload".to_vec());
    assert_eq!(fs.read_file("/old.txt"), Err(ImageError::NotFound));
    // Moving onto itself changes nothing.
    fs.move_("/new.txt", "/new.txt").unwrap();
    assert_eq!(fs.read_file("/new.txt").unwrap(), b"payload".to_vec());
    assert_eq!(fs.move_("/new.txt", "/"), Err(ImageError::InvalidDestination));
    fs.write_file("/dir/keep", b"k").unwrap();
    fs.move_("/new.txt", "/dir").unwrap();
    let mut names = fs.list_directory("/dir/keep").unwrap();
    names.sort();
    assert_eq!(names, vec!["keep".to_string(), "new.txt".to_string()]);
    assert_eq!(fs.read_file("/dir/new.txt").unwrap(), b"payload".to_vec());
}

#[test]
fn a_full_disk_is_reported() {
    let mut fs = fresh(700);
    // 700 - 685 = 15 data sectors, one taken by the root directory.
    assert_eq!(fs.write_file("/big", &[0u8; 512 * 15]), Err(ImageError::DiskFull));
    fs.write_file("/fits", &[9u8; 512 * 14]).unwrap();
    assert_eq!(fs.file_size("/fits").unwrap(), 512 * 14);
}

#[test]
fn paths_split_on_slashes() {
    assert_eq!(trim_slashes("//a/b"), "a/b");
    assert_eq!(trim_slashes("a"), "a");
    assert_eq!(path_components("a//b/"), vec!["a", "b"]);
    assert_eq!(path_components(""), Vec::<&str>::new());
    assert_eq!(path_last_piece("a/b"), "b");
    assert_eq!(path_last_piece("a/b/"), "");
    assert_eq!(path_last_piece("c"), "c");
}

#[test]
fn hash_pointer_arithmetic_stops_past_the_table() {
    let fs = fresh(1000);
    let p = maramos::lemoncc::disk::HashPointer { lba: 1, offset: 5 };
    let q = fs.hash_ptr_add(&p, 2).unwrap();
    assert_eq!((q.lba, q.offset), (2, 1));
    let last = maramos::lemoncc::disk::HashPointer { lba: 683, offset: 0 };
    assert!(fs.hash_ptr_add(&last, 6).is_none());
}

#[test]
fn a_file_on_the_way_is_not_a_directory() {
    let mut fs = fresh(1000);
    fs.write_file("/f", b"x").unwrap();
    assert_eq!(fs.read_file("/f/inner"), Err(ImageError::NotADirectory));
    assert_eq!(fs.write_file("/f/inner", b"y"), Err(ImageError::NotADirectory));
}

#[test]
fn a_child_the_directory_does_not_list_is_not_in_it() {
    let mut d = MemDrive::new(8);
    let dir = HashEntry { status: 1, type_: 1, name: [0u8; 40], start_block: 3, file_size: 0, link_ptr: 0, link_size: 0 };
    let child = HashPointer { lba: 1, offset: 2 };
    assert_eq!(dir_remove_child(&mut d, &dir, &child), Err(ImageError::NotInDirectory));
}

#[test]
fn freeing_outside_the_bitmap_is_corruption() {
    let fs = fresh(1000);
    let sb = fs.superblock();
    let mut drive = fs.into_drive();
    assert_eq!(free_blocks(&mut drive, &sb, 1, 1), Err(ImageError::Corrupt));
}

#[test]
fn a_full_table_has_no_free_slot() {
    let mut d = MemDrive::new(4);
    let mut sb = [0u8; 512];
    sb[18..26].copy_from_slice(&6u64.to_le_bytes());
    d.write_sector(0, &sb).unwrap();
    let mut table = [0u8; 512];
    for i in 0..6 {
        table[i * 74] = 1;
        table[i * 74 + 2] = b'a' + i as u8;
    }
    d.write_sector(1, &table).unwrap();
    let s = SuperBlock::from_sector(&sb);
    assert_eq!(s.hashmap_size, 6);
    let mut name = [0u8; 40];
    name[0] = b'z';
    assert_eq!(find_free_slot(&mut d, &s, &name).err(), Some(ImageError::TableFull));
}

#[test]
fn removing_checks_the_name_before_touching_the_image() {
    let mut fs = fresh(2000);
    fs.write_file("/a.txt", b"hello").unwrap();
    fs.write_file("/dir/b.txt", b"bye").unwrap();
    assert_eq!(fs.remove_file("/dir"), Err(ImageError::NotAFile));
    assert_eq!(fs.remove_file("/nothing"), Err(ImageError::NotFound));
    let long = "x".repeat(60);
    assert_eq!(fs.remove_file(&long), Err(ImageError::InvalidFilename));
    fs.remove_file("/a.txt").unwrap();
    assert_eq!(fs.read_file("/a.txt"), Err(ImageError::NotFound));
}

#[test]
fn a_move_without_a_destination_changes_nothing() {
    let mut fs = fresh(2000);
    fs.write_file("/a.txt", b"hello").unwrap();
    assert_eq!(fs.move_("/a.txt", "/"), Err(ImageError::InvalidDestination));
    assert_eq!(fs.read_file("/a.txt"), Ok(b"hello".to_vec()));
}

#[test]
fn a_lookup_decides_whether_a_file_is_already_there() {
    let entry = |type_: u8| HashEntry { status: 1, type_, name: [0u8; 40], start_block: 700, file_size: 12, link_ptr: 0, link_size: 0 };
    let at = HashPointer { lba: 3, offset: 2 };
    assert!(matches!(existing_file(Ok((at, entry(1)))), Err(ImageError::IsADirectory)));
    match existing_file(Ok((at, entry(0)))) {
        Ok(Some(e)) => assert_eq!((e.start_block, e.file_size), (700, 12)),
        _ => panic!("a file entry is the file already there"),
    }
    assert!(matches!(existing_file(Err(ImageError::NotFound)), Ok(None)));
    assert!(matches!(existing_file(Err(ImageError::Io)), Ok(None)));
}

#[test]
fn removing_a_child_empties_the_first_slot_that_holds_it() {
    let mut d = MemDrive::new(8);
    let mut sector = [0u8; 512];
    for slot in [3usize, 7] {
        sector[slot * 9..slot * 9 + 8].copy_from_slice(&2u64.to_le_bytes());
        sector[slot * 9 + 8] = 4;
    }
    d.write_sector(5, &sector).unwrap();
    let dir = HashEntry { status: 1, type_: 1, name: [0u8; 40], start_block: 5, file_size: 0, link_ptr: 0, link_size: 0 };
    let child = HashPointer { lba: 2, offset: 4 };
    assert_eq!(dir_remove_child(&mut d, &dir, &child), Ok(()));
    let after = d.read_sector(5).unwrap();
    assert!(after[27..36].iter().all(|&b| b == 0));
    assert_eq!(&after[63..71], &2u64.to_le_bytes());
    assert_eq!(after[71], 4);
}

#[test]
fn moving_a_file_onto_itself_changes_nothing() {
    let mut moved = fresh(1000);
    let mut kept = fresh(1000);
    for fs in [&mut moved, &mut kept] {
        fs.write_file("/a.txt", b"hello").unwrap();
        fs.write_file("/b.txt", b"other").unwrap();
    }
    assert_eq!(moved.move_("/a.txt", "a.txt"), Ok(()));
    assert_eq!(moved.read_file("/a.txt").unwrap(), b"hello".to_vec());
    let mut d1 = moved.into_drive();
    let mut d2 = kept.into_drive();
    for lba in 0..1000u64 {
        assert!(d1.read_sector(lba).unwrap() == d2.read_sector(lba).unwrap());
    }
}

#[test]
fn the_parent_of_a_nested_path_is_its_last_directory() {
    let mut fs = fresh(1000);
    fs.write_file("/bin/sub/a", b"1").unwrap();
    let (name, _p, e) = fs.resolve_parent("/bin/sub/b").unwrap();
    assert_eq!(name, "b");
    assert_eq!(e.type_, 1);
    assert_eq!(&e.name[..4], b"sub\0");
}
