use maramos::fs::FSError;
use maramos::fs::lemonfs::bitmap::BitmapAllocator;
use maramos::fs::lemonfs::chain::{build_file_chain, coalesce_blocks};
use maramos::fs::lemonfs::dir_sync::plan_dir_sync;
use maramos::fs::lemonfs::directory::{Directory, DirectoryEntry, FileType};
use maramos::fs::lemonfs::disk::{BitmapBlock, DirBlock, DirEntry, DirEntryFlags, Filename, LinkBlock, LinkPointer, SuperBlock};
use maramos::fs::lemonfs::file::File;
use maramos::fs::lemonfs::ops::{create_entry, file_size, list_names, load_allocator, take_child};
use maramos::fs::lemonfs::path::Path;
use maramos::fs::lemonfs::rewrite::{plan_rewrite, sectors_of};
use maramos::fs::lemonfs::superblock::{check_sb, seal_sb};

fn allocator(blocks: usize, data_start: u64) -> BitmapAllocator {
    let mut b = BitmapAllocator::new(data_start);
    for _ in 0..blocks {
        b.add_block(Box::new(BitmapBlock([0u8; 512])));
    }
    b
}

#[test]
fn superblock_new_and_seal() {
    assert!(SuperBlock::new(0xFFF).is_none());
    let sb = SuperBlock::new(0x1001).unwrap();
    assert_eq!(sb.bitmap_start, 1);
    assert_eq!(sb.data_start, 3);
    assert_eq!(sb.data_end, 0x1001 - 2);
    let sealed = seal_sb(&sb);
    assert!(check_sb(&sealed));
    let back = SuperBlock::from_bytes(&sealed.to_bytes());
    assert!(check_sb(&back));
    assert_eq!(back.data_end, sealed.data_end);
    let mut broken = sealed;
    broken.data_start += 1;
    assert!(!check_sb(&broken));
}

#[test]
fn bitmap_allocate_and_free() {
    let mut b = allocator(2, 100);
    assert_eq!(b.allocate(3), Some(100));
    assert_eq!(b.allocate(1), Some(103));
    b.free(100, 3);
    // Runs are measured at the end of each bitmap block: the free run after bit 3 is taken.
    assert_eq!(b.allocate(2), Some(104));
    assert_eq!(b.allocate(0), None);
    assert_eq!(b.allocate(10_000), None);
}

#[test]
fn bitmap_block_bits() {
    let mut blk = BitmapBlock([0u8; 512]);
    assert!(!blk.get(9));
    blk.set(9);
    assert!(blk.get(9));
    assert_eq!(blk.0[1], 2);
    blk.clear(9);
    assert!(!blk.get(9));
}

#[test]
fn bitmap_reserve_from() {
    let mut b = allocator(2, 10);
    b.reserve_from(10 + 4096 + 99);
    // The first block is still free, so its run at the block end serves the request.
    assert_eq!(b.allocate(1), Some(10));
    // The second block ends in reserved bits, so no run reaches across it.
    assert_eq!(b.allocate(8000), None);
    assert_eq!(b.allocate(4095), Some(11));
}

#[test]
fn filename_roundtrip() {
    let f = Filename::from_str("notes.txt");
    assert_eq!(f.to_str(), "notes.txt");
    assert!(!f.is_empty());
    assert!(Filename::from_str("").is_empty());
    let long = "x".repeat(50);
    assert_eq!(Filename::from_str(&long).to_str(), "x".repeat(36));
}

#[test]
fn dirblock_bytes_roundtrip() {
    let e = DirEntry::new(&Filename::from_str("a"), DirEntryFlags { bits: 1 }, LinkPointer::new(7, 512));
    let mut entries = [DirEntry::zero(); 8];
    entries[0] = e;
    let blk = DirBlock::new(3, &entries, LinkPointer::new(9, 512));
    let bytes = blk.to_bytes();
    assert_eq!(bytes.len(), 512);
    let back = DirBlock::from_bytes(&bytes);
    assert_eq!(back.parent, 3);
    assert_eq!(back.next.start, 9);
    assert_eq!(back.entries[0].link.start, 7);
    assert_eq!(back.entries[0].flags.bits, 1);
}

#[test]
fn linkblock_resolve() {
    let mut arr = [LinkPointer::new(0, 0); 32];
    arr[0] = LinkPointer::new(5, 1024);
    arr[1] = LinkPointer::new(9, 0);
    arr[2] = LinkPointer::new(12, 512);
    arr[31] = LinkPointer::new(40, 0);
    let lb = LinkBlock(arr);
    let d = lb.direct_pointers();
    assert_eq!(d.len(), 2);
    assert_eq!(d[1].start, 12);
    assert_eq!(lb.last().start, 40);
    let back = LinkBlock::from_bytes(&lb.to_bytes());
    assert_eq!(back.0[2].start, 12);
}

#[test]
fn path_operations() {
    let p = Path::from_string(String::from("/usr/./bin//ls"));
    assert_eq!(p.components(), vec!["usr", "bin", "ls"]);
    assert!(!p.is_root());
    assert_eq!(p.name(), "ls");
    let parent = p.parent();
    assert_eq!(parent.components(), vec!["usr", "bin"]);
    assert!(Path::from_string(String::from("/")).is_root());
    assert_eq!(Path::from_string(String::from("/")).name(), "/");
    let q = Path::from_vec(vec!["a", "b"]);
    assert_eq!(q.components(), vec!["a", "b"]);
}

#[test]
fn coalesce_merges_adjacent_sectors() {
    let e = coalesce_blocks(&[10, 11, 12, 20, 21, 5]);
    assert_eq!(e.len(), 3);
    assert_eq!((e[0].start, e[0].size), (10, 1536));
    assert_eq!((e[1].start, e[1].size), (20, 1024));
    assert_eq!((e[2].start, e[2].size), (5, 512));
}

#[test]
fn file_chain_single_extent() {
    let mut b = allocator(1, 100);
    let (head, blocks) = build_file_chain(&mut b, &[100, 101, 102]).unwrap();
    assert_eq!((head.start, head.size), (100, 1536));
    assert!(blocks.is_empty());
    assert_eq!(b.allocate(1), Some(100));
}

#[test]
fn file_chain_link_blocks() {
    let mut b = allocator(1, 100);
    let sectors: Vec<u64> = (0..40).map(|i| 200 + 2 * i).collect();
    let (head, blocks) = build_file_chain(&mut b, &sectors).unwrap();
    assert_eq!(blocks.len(), 2);
    assert_eq!(head.start, 100);
    assert_eq!(head.size, 0);
    assert_eq!(blocks[0].0, 100);
    assert_eq!(blocks[1].0, 101);
    assert_eq!(blocks[0].1 .0[0].start, 200);
    assert_eq!(blocks[0].1 .0[30].start, 260);
    assert_eq!((blocks[0].1 .0[31].start, blocks[0].1 .0[31].size), (101, 0));
    assert_eq!(blocks[1].1 .0[0].start, 262);
    assert_eq!(blocks[1].1 .0[8].start, 278);
    assert_eq!(blocks[1].1 .0[9].start, 0);
    assert_eq!(blocks[1].1 .0[31].start, 0);
}

#[test]
fn file_chain_no_space() {
    let mut b = allocator(1, 100);
    assert_eq!(b.allocate(4096), Some(100));
    let r = build_file_chain(&mut b, &[1, 3]);
    assert!(matches!(r, Err(FSError::NoSpace)));
}

#[test]
fn rewrite_grows_and_shrinks() {
    let mut b = allocator(1, 100);
    assert_eq!(b.allocate(4), Some(100));
    let direct = [LinkPointer::new(100, 1024), LinkPointer::new(102, 600)];
    assert_eq!(sectors_of(&direct), vec![100, 101, 102, 103]);
    let plan = plan_rewrite(&mut b, &direct, &[], 2).unwrap();
    assert_eq!(plan.chain, vec![100, 101]);
    assert_eq!(plan.zero_sectors, vec![102, 103]);
    assert_eq!((plan.head.start, plan.head.size), (100, 1024));
    assert_eq!(b.allocate(1), Some(102));

    let mut b2 = allocator(1, 100);
    assert_eq!(b2.allocate(2), Some(100));
    assert_eq!(b2.allocate(1), Some(102));
    let plan2 = plan_rewrite(&mut b2, &[LinkPointer::new(100, 1024)], &[LinkPointer::new(102, 0)], 3).unwrap();
    assert_eq!(plan2.zero_sectors, vec![102]);
    assert_eq!(plan2.chain, vec![100, 101, 102]);
    assert_eq!((plan2.head.start, plan2.head.size), (100, 1536));
}

#[test]
fn dir_sync_plan() {
    let mut b = allocator(1, 100);
    assert_eq!(b.allocate(1), Some(100));
    let mut children = Vec::new();
    for i in 0..9u64 {
        children.push(DirectoryEntry::new_dir(Filename::from_str(&format!("d{}", i)), 300 + i));
    }
    let dir = Directory { name: Filename::from_str("/"), parent: 0, children, head: LinkPointer::new(100, 512) };
    let w = plan_dir_sync(&dir, &[100], &mut b).unwrap();
    assert_eq!(w.len(), 2);
    assert_eq!(w[0].0, 100);
    assert_eq!(w[1].0, 101);
    assert_eq!(w[0].1.next.start, 101);
    assert_eq!(w[1].1.next.start, 0);
    assert_eq!(w[1].1.entries[0].link.start, 308);
    assert!(w[1].1.entries[1].name.is_empty());

    let empty = Directory { name: Filename::from_str("/"), parent: 0, children: Vec::new(), head: LinkPointer::new(100, 512) };
    let w2 = plan_dir_sync(&empty, &[100, 101], &mut b).unwrap();
    assert_eq!(w2.len(), 1);
    assert_eq!(b.allocate(1), Some(101));
}

#[test]
fn format_plans() {
    assert!(matches!(maramos::fs::lemonfs::ops::plan_format(100), Err(FSError::NoSpace)));
    let p = maramos::fs::lemonfs::ops::plan_format(0x2000).unwrap();
    assert_eq!(p.zero_runs, vec![(1, 2), (0x2000 - 2, 1)]);
    assert!(check_sb(&p.sealed));
}

#[test]
fn load_allocator_reserves_tail() {
    let sb = SuperBlock::new(0x3000).unwrap();
    assert_eq!(sb.data_start, 4);
    let mut b = load_allocator(&sb, vec![BitmapBlock([0u8; 512]), BitmapBlock([0u8; 512])]);
    assert_eq!(b.allocate(1), Some(4));
    let small = SuperBlock::new(0x1001).unwrap();
    let mut c = load_allocator(&small, vec![BitmapBlock([0u8; 512])]);
    // The bits past the last usable block end the only bitmap block, so no run ends free.
    assert_eq!(c.allocate(1), None);
}

#[test]
fn create_take_and_size() {
    let mut b = allocator(1, 50);
    let mut dir = Directory { name: Filename::from_str("/"), parent: 0, children: Vec::new(), head: LinkPointer::new(50, 512) };
    let e = create_entry(&dir, &String::from("file"), 0, &mut b).unwrap();
    assert!(matches!(e, DirectoryEntry::File(_)));
    dir.children.push(e);
    assert!(matches!(create_entry(&dir, &String::from("file"), 0, &mut b), Err(FSError::FileExists)));
    assert!(matches!(create_entry(&dir, &String::from("x"), 8, &mut b), Err(FSError::BadFlags)));
    let d = create_entry(&dir, &String::from("dir"), 1, &mut b).unwrap();
    assert!(matches!(d, DirectoryEntry::Directory { link, .. } if link.start == 51));
    let s = create_entry(&dir, &String::from("link"), 2, &mut b).unwrap();
    assert!(matches!(s, DirectoryEntry::SymLink { dest, .. } if dest.start == 0));
    dir.children.push(d);
    assert_eq!(list_names(&dir.children), vec!["file", "dir"]);
    assert_eq!(file_size(&dir, &String::from("file")).unwrap(), 0);
    assert!(matches!(file_size(&dir, &String::from("dir")), Err(FSError::BadFileType)));
    assert!(matches!(file_size(&dir, &String::from("nope")), Err(FSError::FileNotFound)));
    let taken = take_child(&mut dir, &String::from("file")).unwrap();
    assert_eq!(taken.name(), "file");
    assert_eq!(list_names(&dir.children), vec!["dir"]);
    assert!(matches!(take_child(&mut dir, &String::from("file")), Err(FSError::FileNotFound)));
}

#[test]
fn file_and_entry_basics() {
    let f = File::new("data", 77);
    assert_eq!(f.size, 0);
    assert_eq!((f.head.start, f.head.size), (77, 1));
    assert!(matches!(FileType::from_dirflags(DirEntryFlags { bits: 3 }), FileType::Directory));
    assert!(matches!(FileType::from_dirflags(DirEntryFlags { bits: 2 }), FileType::Symlink));
    assert!(matches!(FileType::from_dirflags(DirEntryFlags { bits: 0 }), FileType::File));
    let d = DirectoryEntry::new(Filename::from_str("x"), 5, &FileType::Directory).to_dentry();
    assert_eq!(d.flags.bits, 1);
    assert_eq!(d.link.size, 512);
}

#[test]
fn dir_block_reads_back_as_written() {
    let name = Filename::from_str("kernel.elf");
    let e = DirEntry::new(&name, DirEntryFlags::empty(), LinkPointer { start: 0x1234, size: 777 });
    let mut entries = [DirEntry::zero(); 8];
    entries[3] = e;
    let b = DirBlock::new(42, &entries, LinkPointer { start: 9, size: 512 });
    let bytes = b.to_bytes();
    assert_eq!(bytes.len(), 512);
    let c = DirBlock::from_bytes(&bytes);
    assert_eq!(c.parent, 42);
    assert_eq!(c.next.start, 9);
    assert_eq!(c.next.size, 512);
    assert_eq!(c.entries[3].name.0, name.0);
    assert_eq!(c.entries[3].link.start, 0x1234);
    assert_eq!(c.entries[3].link.size, 777);
    assert_eq!(c.to_bytes(), bytes);
}

#[test]
fn link_block_reads_back_as_written() {
    let mut ptrs = [LinkPointer { start: 0, size: 0 }; 32];
    for (i, p) in ptrs.iter_mut().enumerate() {
        *p = LinkPointer { start: 100 + i as u64, size: 512 * (i as u64 + 1) };
    }
    let b = LinkBlock(ptrs);
    let bytes = b.to_bytes();
    let c = LinkBlock::from_bytes(&bytes);
    for i in 0..32 {
        assert_eq!(c.0[i].start, 100 + i as u64);
        assert_eq!(c.0[i].size, 512 * (i as u64 + 1));
    }
}

#[test]
fn a_path_rebuilt_from_its_components_has_them_again() {
    let p = Path::from_vec(vec!["bin", "init.elf"]);
    assert_eq!(p.components(), vec!["bin", "init.elf"]);
    assert!(Path::from_vec(vec![]).is_root());
    let messy = Path::from_string(String::from("/a/./b//c/"));
    let comps: Vec<String> = messy.components().iter().map(|c| c.to_string()).collect();
    assert_eq!(comps, vec!["a", "b", "c"]);
    let again = Path::from_vec(messy.components());
    assert_eq!(again.components(), vec!["a", "b", "c"]);
}
