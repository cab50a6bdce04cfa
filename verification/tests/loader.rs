use maramos::loader::LoaderError;
use maramos::loader::elf::{load_elf, page_flags, plan_binary, segment_fits_file, AreaPlan, Backing, SegmentHeader};
use maramos::memory::{index_to_addr, plan_mapping, region_shape, register_fits, AddressSpace, PhysOffset, PAGE_1G, PAGE_2M, PAGE_4K};

#[test]
fn elf_layout() {
    let code = SegmentHeader { kind: 1, vaddr: 0x40_1234, mem_size: 0x100, file_size: 0x80, offset: 0x1000, flags: 5 };
    let note = SegmentHeader { kind: 4, vaddr: 0, mem_size: 0, file_size: 0, offset: 0, flags: 0 };
    let bss = SegmentHeader { kind: 1, vaddr: 0x60_0000, mem_size: 0x3000, file_size: 0, offset: 0, flags: 6 };
    let plan = load_elf(2, 0x40_1234, &[code, note, bss], 0x2000).unwrap();
    assert_eq!(plan.entry, 0x40_1234);
    assert_eq!(plan.areas.len(), 3);
    assert_eq!(plan.areas[0], AreaPlan {
        start: 0x40_1000,
        end: 0x40_2000,
        writable: false,
        no_execute: false,
        backing: Backing::File { data_offset: 0x234, file_size: 0x80, file_offset: 0x1000, cache_pages: 1 },
    });
    assert_eq!(plan.areas[1].backing, Backing::Anonymous);
    assert_eq!((plan.areas[1].start, plan.areas[1].end), (0x60_0000, 0x60_3000));
    assert!(plan.areas[1].writable && plan.areas[1].no_execute);
    assert_eq!((plan.areas[2].start, plan.areas[2].end), (0x7FF_FFF_000_000 - 0x100_000 + 0x1000, 0x7FF_FFF_000_000));
    assert!(matches!(load_elf(1, 0, &[], 0), Err(LoaderError::NotExecutable)));
    assert!(load_elf(3, 0, &[], 0).is_ok());
}

#[test]
fn segment_page_flags() {
    assert_eq!(page_flags(1), (false, false));
    assert_eq!(page_flags(2), (true, true));
    assert_eq!(page_flags(7), (true, false));
}

#[test]
fn page_table_indices() {
    assert_eq!(index_to_addr(0, 0, 0, 1), 0x1000);
    assert_eq!(index_to_addr(1, 2, 3, 4), (1 << 39) | (2 << 30) | (3 << 21) | (4 << 12));
    assert_eq!(index_to_addr(256, 0, 0, 0), 0xFFFF_8000_0000_0000);
    assert_eq!(index_to_addr(511, 511, 511, 511), 0xFFFF_FFFF_FFFF_F000);
}

#[test]
fn mmio_registers_and_offsets() {
    assert!(register_fits(8, 4, 4, 16));
    assert!(!register_fits(6, 4, 4, 16));
    assert!(!register_fits(16, 4, 4, 16));
    assert_eq!(PhysOffset(0xFFFF_8000_0000_0000).frame_to_pointer(0x1000), 0xFFFF_8000_0000_1000);
    assert_ne!(AddressSpace::Kernel, AddressSpace::User);
}

#[test]
fn mappings_use_the_largest_aligned_pages() {
    let gib = PAGE_1G;
    let plan = plan_mapping(gib, 2 * gib, gib + PAGE_2M + 5000);
    assert_eq!(plan.len(), 1 + 1 + 2);
    assert_eq!(plan[0], (gib, 2 * gib, PAGE_1G));
    assert_eq!(plan[1], (gib + gib, 3 * gib, PAGE_2M));
    assert_eq!(plan[2], (2 * gib + PAGE_2M, 3 * gib + PAGE_2M, PAGE_4K));
    assert_eq!(plan[3], (2 * gib + PAGE_2M + PAGE_4K, 3 * gib + PAGE_2M + PAGE_4K, PAGE_4K));
    // A physical address that is not aligned keeps to 4 KiB pages.
    let small = plan_mapping(0, PAGE_4K, PAGE_2M);
    assert_eq!(small.len(), 512);
    assert!(small.iter().all(|&(_, _, s)| s == PAGE_4K));
    assert_eq!(plan_mapping(0, 0, 0).len(), 0);
}

#[test]
fn region_shapes_follow_the_page_count() {
    assert_eq!(region_shape(0), None);
    assert_eq!(region_shape(1), Some((0x1000, 0x1000)));
    assert_eq!(region_shape(0x200), Some((0x20_0000, 0x20_0000)));
    assert_eq!(region_shape(0x4_0000), Some((0x4000_0000, 0x4000_0000)));
    assert_eq!(region_shape(0x201), Some((0x201 * 0x1000, 0x1000)));
}

#[test]
fn segments_past_the_file_or_the_address_space_are_refused() {
    let code = SegmentHeader { kind: 1, vaddr: 0x40_0000, mem_size: 0x100, file_size: 0x80, offset: 0x1000, flags: 5 };
    assert!(segment_fits_file(&code, 0x1080));
    assert!(!segment_fits_file(&code, 0x107F));
    let huge = SegmentHeader { kind: 1, vaddr: u64::MAX - 0x100, mem_size: 0x100, file_size: 0, offset: 0, flags: 6 };
    assert!(!segment_fits_file(&huge, 0));
    let note = SegmentHeader { kind: 4, vaddr: u64::MAX, mem_size: u64::MAX, file_size: u64::MAX, offset: u64::MAX, flags: 0 };
    assert!(segment_fits_file(&note, 0));
    assert!(matches!(plan_binary(2, 0, &[code], 0x1000), Err(LoaderError::InvalidFile)));
    assert!(matches!(plan_binary(1, 0, &[code], 0x1000), Err(LoaderError::NotExecutable)));
    let plan = plan_binary(2, 0x40_0000, &[code], 0x2000).unwrap();
    assert_eq!(plan.areas.len(), 2);
}
