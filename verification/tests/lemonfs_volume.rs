use maramos::fs::FSError;
use maramos::fs::hashtable::drive::{MemDrive, StorageDrive};
use maramos::fs::lemonfs::disk::{DIR_IS_DIR, DIR_IS_SYMLINK};
use maramos::fs::lemonfs::volume::{get_superblock, LemonFS};
use maramos::fs::lemonfs::path::Path;

fn mounted() -> LemonFS<MemDrive> {
    match LemonFS::init(MemDrive::new(0x3000)) {
        Ok(fs) => fs,
        Err(e) => panic!("mount failed: {:?}", e),
    }
}

#[test]
fn init_formats_a_blank_partition() {
    let mut fs = mounted();
    let sb = fs.superblock();
    assert_eq!(sb.bitmap_start, 1);
    assert_eq!(sb.data_start, 4);
    assert_eq!(sb.data_end, 0x3000 - 2);
    assert_eq!(fs.list("/".to_string()).unwrap(), Vec::<String>::new());
}

#[test]
fn one_bitmap_block_with_a_reserved_tail_allocates_nothing() {
    // Runs are checked at the end of each bitmap block only, and the blocks past the last
    // usable one are reserved, so a partition whose bitmap is one block cannot allocate.
    let mut fs = match LemonFS::init(MemDrive::new(0x1000)) {
        Ok(f) => f,
        Err(e) => panic!("{:?}", e),
    };
    assert_eq!(fs.superblock().data_start, 2);
    assert_eq!(fs.create("/a".to_string(), 0), Err(FSError::NoSpace));
    assert_eq!(fs.create("/l".to_string(), DIR_IS_SYMLINK as u64), Ok(()));
}

#[test]
fn format_refuses_a_small_partition() {
    let mut d = MemDrive::new(100);
    assert_eq!(maramos::fs::lemonfs::volume::format(&mut d).unwrap_err(), FSError::NoSpace);
}

#[test]
fn a_blank_partition_has_no_superblock() {
    let mut d = MemDrive::new(0x1000);
    assert_eq!(get_superblock(&mut d).unwrap_err(), FSError::BadSuperblock);
    let sb = maramos::fs::lemonfs::volume::format(&mut d).unwrap();
    let (back, from_backup) = get_superblock(&mut d).unwrap();
    assert!(!from_backup);
    assert_eq!(back.data_end, sb.data_end);
}

#[test]
fn create_write_read_and_size() {
    let mut fs = mounted();
    fs.create("/a.txt".to_string(), 0).unwrap();
    assert_eq!(fs.list("/".to_string()).unwrap(), vec!["a.txt".to_string()]);
    let data: Vec<u8> = (0..1000u32).map(|i| (i % 199) as u8 + 1).collect();
    fs.write("/a.txt".to_string(), &data).unwrap();
    // Whole sectors are written: 1000 bytes take two.
    assert_eq!(fs.size("/a.txt".to_string()).unwrap(), 1024);
    // The root entries kept in memory keep the data pointers the file had when it was read,
    // none for a new file: reading it back goes through the disk after a remount.
    let mut page = vec![0xEEu8; 4096];
    assert_eq!(fs.read("/a.txt".to_string(), &mut page).unwrap(), 0);
    let mut fs = match LemonFS::init(fs.into_drive()) {
        Ok(f) => f,
        Err(e) => panic!("{:?}", e),
    };
    assert_eq!(fs.read("/a.txt".to_string(), &mut page).unwrap(), 1024);
    assert_eq!(&page[..1000], &data[..]);
    assert!(page[1000..1024].iter().all(|&b| b == 0));
    assert!(page[1024..].iter().all(|&b| b == 0xEE));
    // A smaller buffer takes what fits.
    let mut small = vec![0u8; 100];
    assert_eq!(fs.read("/a.txt".to_string(), &mut small).unwrap(), 100);
    assert_eq!(&small[..], &data[..100]);
}

#[test]
fn files_below_the_root_read_back_at_once() {
    let mut fs = mounted();
    fs.create("/d".to_string(), DIR_IS_DIR as u64).unwrap();
    fs.create("/d/f".to_string(), 0).unwrap();
    fs.write("/d/f".to_string(), b"inside").unwrap();
    let mut page = vec![0u8; 1024];
    assert_eq!(fs.read("/d/f".to_string(), &mut page).unwrap(), 512);
    assert_eq!(&page[..6], b"inside");
    assert_eq!(fs.size("/d/f".to_string()).unwrap(), 512);
}

#[test]
fn rewriting_shrinks_and_grows() {
    let mut fs = mounted();
    fs.create("/d".to_string(), DIR_IS_DIR as u64).unwrap();
    fs.create("/d/f".to_string(), 0).unwrap();
    fs.write("/d/f".to_string(), &[5u8; 3000]).unwrap();
    assert_eq!(fs.size("/d/f".to_string()).unwrap(), 3072);
    fs.write("/d/f".to_string(), &[6u8; 10]).unwrap();
    assert_eq!(fs.size("/d/f".to_string()).unwrap(), 512);
    let mut page = vec![0u8; 512];
    assert_eq!(fs.read("/d/f".to_string(), &mut page).unwrap(), 512);
    assert_eq!(&page[..10], &[6u8; 10]);
    fs.write("/d/f".to_string(), &[7u8; 5000]).unwrap();
    let mut big = vec![0u8; 8192];
    assert_eq!(fs.read("/d/f".to_string(), &mut big).unwrap(), 5120);
    assert!(big[..5000].iter().all(|&b| b == 7));
}

#[test]
fn directories_hold_their_entries() {
    let mut fs = mounted();
    fs.create("/d".to_string(), DIR_IS_DIR as u64).unwrap();
    fs.create("/d/x".to_string(), 0).unwrap();
    fs.create("/d/y".to_string(), 0).unwrap();
    assert_eq!(fs.list("/d".to_string()).unwrap(), vec!["x".to_string(), "y".to_string()]);
    assert_eq!(fs.list("/".to_string()).unwrap(), vec!["d".to_string()]);
    assert_eq!(fs.create("/d/x".to_string(), 0), Err(FSError::FileExists));
    assert_eq!(fs.list("/d/x".to_string()), Err(FSError::BadFileType));
    assert_eq!(fs.size("/d".to_string()), Err(FSError::BadFileType));
    assert_eq!(fs.create("/nothere/x".to_string(), 0), Err(FSError::FileNotFound));
}

#[test]
fn many_entries_spill_into_more_blocks() {
    let mut fs = mounted();
    for i in 0..20 {
        fs.create(format!("/f{}", i), 0).unwrap();
    }
    let names = fs.list("/".to_string()).unwrap();
    assert_eq!(names.len(), 20);
    assert_eq!(names[19], "f19");
    fs.sync().unwrap();
    let mut again = match LemonFS::init(fs.into_drive()) {
        Ok(f) => f,
        Err(e) => panic!("{:?}", e),
    };
    assert_eq!(again.list("/".to_string()).unwrap(), names);
}

#[test]
fn delete_removes_entries() {
    let mut fs = mounted();
    fs.create("/a".to_string(), 0).unwrap();
    fs.create("/b".to_string(), 0).unwrap();
    fs.write("/a".to_string(), &[1u8; 600]).unwrap();
    fs.delete("/a".to_string()).unwrap();
    assert_eq!(fs.list("/".to_string()).unwrap(), vec!["b".to_string()]);
    assert_eq!(fs.delete("/a".to_string()), Err(FSError::FileNotFound));
    fs.create("/d".to_string(), DIR_IS_DIR as u64).unwrap();
    fs.create("/d/inner".to_string(), 0).unwrap();
    fs.delete("/d".to_string()).unwrap();
    assert_eq!(fs.list("/".to_string()).unwrap(), vec!["b".to_string()]);
}

#[test]
fn the_root_is_refused() {
    let mut fs = mounted();
    assert_eq!(fs.create("/".to_string(), 0), Err(FSError::IsRoot));
    assert_eq!(fs.delete("/".to_string()), Err(FSError::IsRoot));
    assert_eq!(fs.size("/".to_string()), Err(FSError::IsRoot));
    let mut page = vec![0u8; 512];
    assert_eq!(fs.read("/".to_string(), &mut page), Err(FSError::IsRoot));
    assert_eq!(fs.write("/".to_string(), &[1u8]), Err(FSError::IsRoot));
    assert_eq!(fs.route_symlink("/".to_string(), "/x".to_string()), Err(FSError::IsRoot));
    assert_eq!(fs.create("/x".to_string(), 0x80), Err(FSError::BadFlags));
}

#[test]
fn symlinks_lead_to_directories() {
    let mut fs = mounted();
    fs.create("/d".to_string(), DIR_IS_DIR as u64).unwrap();
    fs.create("/d/x".to_string(), 0).unwrap();
    fs.create("/lnk".to_string(), DIR_IS_SYMLINK as u64).unwrap();
    fs.route_symlink("/lnk".to_string(), "/d".to_string()).unwrap();
    assert_eq!(fs.list("/lnk".to_string()).unwrap(), vec!["x".to_string()]);
    assert_eq!(fs.route_symlink("/d".to_string(), "/lnk".to_string()), Err(FSError::BadFileType));
}

#[test]
fn sync_then_remount_keeps_the_tree() {
    let mut fs = mounted();
    fs.create("/keep".to_string(), 0).unwrap();
    fs.write("/keep".to_string(), b"persist").unwrap();
    fs.sync().unwrap();
    let mut fs2 = match LemonFS::init(fs.into_drive()) {
        Ok(f) => f,
        Err(e) => panic!("{:?}", e),
    };
    assert_eq!(fs2.list("/".to_string()).unwrap(), vec!["keep".to_string()]);
    let mut page = vec![0u8; 512];
    assert_eq!(fs2.read("/keep".to_string(), &mut page).unwrap(), 512);
    assert_eq!(&page[..7], b"persist");
    let mut d = fs2.into_drive();
    assert!(d.read_sector(0).is_ok());
}

fn gpt_header(start: u64, end: u64, count: u32, array_crc: u32) -> [u8; 512] {
    let mut h = [0u8; 512];
    h[..8].copy_from_slice(b"EFI PART");
    h[8..12].copy_from_slice(&0x0001_0000u32.to_le_bytes());
    h[12..16].copy_from_slice(&92u32.to_le_bytes());
    h[24..32].copy_from_slice(&1u64.to_le_bytes());
    h[40..48].copy_from_slice(&start.to_le_bytes());
    h[48..56].copy_from_slice(&end.to_le_bytes());
    h[72..80].copy_from_slice(&2u64.to_le_bytes());
    h[80..84].copy_from_slice(&count.to_le_bytes());
    h[84..88].copy_from_slice(&128u32.to_le_bytes());
    h[88..92].copy_from_slice(&array_crc.to_le_bytes());
    let c = maramos::library::crc32::crc32(&h[..92]);
    h[16..20].copy_from_slice(&c.to_le_bytes());
    h
}

fn gpt_entry(ty: [u8; 16], start: u64, end: u64) -> Vec<u8> {
    let mut e = vec![0u8; 128];
    e[..16].copy_from_slice(&ty);
    e[32..40].copy_from_slice(&start.to_le_bytes());
    e[40..48].copy_from_slice(&end.to_le_bytes());
    e
}

#[test]
fn init_mounts_the_lemonfs_partitions_of_a_drive() {
    let total: u64 = 0xA000;
    let lemon = maramos::gpt::partition_drive::LEMONFS_GUID;
    let other = [7u8; 16];
    let mut array = Vec::new();
    array.extend(gpt_entry(lemon, 64, 64 + 0x3000 - 1));
    array.extend(gpt_entry(other, 0x3100, 0x3100 + 0x3000 - 1));
    array.extend(gpt_entry(other, 0x6200, 0x6200 + 0x3000 - 1));
    array.extend(vec![0u8; 128]);
    let crc = maramos::library::crc32::crc32(&array);
    let mut drive = MemDrive::new(total as usize);
    let mut mbr = [0u8; 512];
    mbr[450] = 0xEE;
    mbr[510] = 0x55;
    mbr[511] = 0xAA;
    drive.write_sector(0, &mbr).unwrap();
    drive.write_sector(1, &gpt_header(34, total - 34, 4, crc)).unwrap();
    let mut s2 = [0u8; 512];
    s2.copy_from_slice(&array);
    drive.write_sector(2, &s2).unwrap();
    // The second partition, of unknown type, already holds LemonFS; the third does not.
    let e2 = maramos::gpt::headers::GPTPartitionEntry::from_bytes(&array, 128);
    let mut pd = maramos::gpt::partition_drive::PartitionDrive::from_partition(drive, &e2);
    maramos::fs::lemonfs::volume::format(&mut pd).unwrap();
    let drive = pd.parent;
    let partitions = maramos::gpt::parse_gpt(drive).unwrap();
    assert_eq!(partitions.len(), 3);
    let mounted = match maramos::fs::init(partitions) {
        Ok(v) => v,
        Err(e) => panic!("{:?}", e),
    };
    assert_eq!(mounted.len(), 2);
    assert_eq!(mounted[0].superblock().data_end, 0x3000 - 2);
}

#[test]
fn an_empty_drive_cannot_be_read() {
    match LemonFS::init(MemDrive::new(0)) {
        Err(e) => assert_eq!(e, FSError::IOError),
        Ok(_) => panic!("mounted an empty drive"),
    }
}

#[test]
fn the_parent_walk_starts_at_the_root() {
    let mut fs = mounted();
    fs.create("/f".to_string(), 0).unwrap();
    fs.create("/d".to_string(), DIR_IS_DIR as u64).unwrap();
    let root = fs.get_parent(&Path::from_string("/x".to_string())).unwrap();
    assert_eq!(root.parent, 0);
    assert_eq!(root.head.start, fs.superblock().data_end);
    assert_eq!(root.children.len(), 2);
    assert_eq!(fs.get_parent(&Path::from_string("/missing/x".to_string())).unwrap_err(), FSError::FileNotFound);
    assert_eq!(fs.get_parent(&Path::from_string("/f/x".to_string())).unwrap_err(), FSError::BadFileType);
    let d = fs.get_parent(&Path::from_string("/d/x".to_string())).unwrap();
    assert_eq!(d.children.len(), 0);
}

#[test]
fn names_at_the_root_are_looked_up_before_anything_is_touched() {
    let mut fs = mounted();
    fs.create("/f".to_string(), 0).unwrap();
    fs.create("/d".to_string(), DIR_IS_DIR as u64).unwrap();
    fs.create("/l".to_string(), DIR_IS_SYMLINK as u64).unwrap();
    assert_eq!(fs.size("/missing".to_string()), Err(FSError::FileNotFound));
    assert_eq!(fs.size("/d".to_string()), Err(FSError::BadFileType));
    assert_eq!(fs.size("/f".to_string()), Ok(0));
    let mut buf = vec![0u8; 16];
    assert_eq!(fs.read("/missing".to_string(), &mut buf), Err(FSError::FileNotFound));
    assert_eq!(fs.read("/d".to_string(), &mut buf), Err(FSError::BadFileType));
    assert_eq!(fs.write("/missing".to_string(), b"x"), Err(FSError::FileNotFound));
    assert_eq!(fs.write("/d".to_string(), b"x"), Err(FSError::BadFileType));
    assert_eq!(fs.write("/l".to_string(), b"x"), Err(FSError::BadFileType));
    assert_eq!(fs.delete("/missing".to_string()), Err(FSError::FileNotFound));
    assert_eq!(fs.create("/f".to_string(), 0), Err(FSError::FileExists));
    assert_eq!(fs.create("/g".to_string(), 0x10), Err(FSError::BadFlags));
    assert_eq!(fs.route_symlink("/nope".to_string(), "/d".to_string()), Err(FSError::FileNotFound));
    assert_eq!(fs.route_symlink("/f".to_string(), "/d".to_string()), Err(FSError::BadFileType));
    assert_eq!(fs.list("/".to_string()).unwrap().len(), 3);
    fs.delete("/f".to_string()).unwrap();
    assert_eq!(fs.size("/f".to_string()), Err(FSError::FileNotFound));
    assert_eq!(fs.list("/".to_string()).unwrap().len(), 2);
}

#[test]
fn a_rewritten_root_file_keeps_its_old_pointers_in_memory_until_remounted() {
    let mut fs = mounted();
    fs.create("/f".to_string(), 0).unwrap();
    fs.write("/f".to_string(), b"hello").unwrap();
    // The entry kept in memory still lists the data pointers it had: none.
    let mut page = vec![0u8; 512];
    assert_eq!(fs.read("/f".to_string(), &mut page).unwrap(), 0);
    fs.sync().unwrap();
    let mut fs2 = match LemonFS::init(fs.into_drive()) {
        Ok(f) => f,
        Err(e) => panic!("{:?}", e),
    };
    assert_eq!(fs2.read("/f".to_string(), &mut page).unwrap(), 512);
    assert_eq!(&page[..5], b"hello");
}
