//! The layout of an ELF executable in user memory: each loadable segment becomes a page-aligned
//! area, backed by a copy of its file bytes or, for a segment without file bytes, by zero pages;
//! a stack area follows.

use vstd::prelude::*;
use super::{LoaderError, USER_STACK_SIZE, USER_STACK_TOP};

verus! {

/// Size of a page.
pub const PAGE_SIZE: u64 = 4096;

/// ELF file types that can be run: an executable, or a shared object (position independent).
pub const ELF_TYPE_EXECUTABLE: u16 = 2;
pub const ELF_TYPE_SHARED_OBJECT: u16 = 3;

/// Program header type of a loadable segment.
pub const PT_LOAD: u32 = 1;

/// Program header flag bits: executable and writable.
pub const PF_X: u32 = 1;
pub const PF_W: u32 = 2;

/// The fields of a program header that the loader reads.
#[derive(Debug, Clone, Copy, PartialEq, Eq, Structural)]
pub struct SegmentHeader {
    /// The raw segment type.
    pub kind: u32,
    pub vaddr: u64,
    pub mem_size: u64,
    pub file_size: u64,
    /// Where the segment's bytes start in the file.
    pub offset: u64,
    /// The raw flag bits.
    pub flags: u32,
}

/// What backs an area of user memory.
#[derive(Debug, Clone, Copy, PartialEq, Eq, Structural)]
pub enum Backing {
    /// Zero pages on demand.
    Anonymous,
    /// A cache of `cache_pages` pages holding the `file_size` bytes at `file_offset` of the
    /// file, placed `data_offset` bytes into the cache.
    File { data_offset: u64, file_size: u64, file_offset: u64, cache_pages: u64 },
}

/// An area of user memory: `[start, end)`, its access rights and its backing.
#[derive(Debug, Clone, Copy, PartialEq, Eq, Structural)]
pub struct AreaPlan {
    pub start: u64,
    pub end: u64,
    pub writable: bool,
    pub no_execute: bool,
    pub backing: Backing,
}

/// The layout of a loaded binary: where it starts, its stack pointer, and its areas.
pub struct LoadPlan {
    pub entry: u64,
    pub user_sp: u64,
    pub areas: Vec<AreaPlan>,
}

/// A segment's arithmetic fits in 64 bits and its bytes lie within a file of `file_len` bytes.
pub open spec fn segment_fits(h: SegmentHeader, file_len: u64) -> bool {
    h.kind == PT_LOAD ==> {
        &&& h.vaddr + h.mem_size + 0xFFF <= u64::MAX
        &&& (h.vaddr as int % (PAGE_SIZE as int)) + h.file_size + 0xFFF <= u64::MAX
        &&& (h.file_size > 0 ==> h.offset + h.file_size <= file_len)
    }
}

/// The area a loadable segment becomes.
pub open spec fn segment_area(h: SegmentHeader) -> AreaPlan {
    let v = h.vaddr as int;
    let e = h.vaddr + h.mem_size + 0xFFF;
    let base = v - v % (PAGE_SIZE as int);
    let top = e - e % (PAGE_SIZE as int);
    let data_off = v % (PAGE_SIZE as int);
    AreaPlan {
        start: base as u64,
        end: top as u64,
        writable: h.flags & PF_W == PF_W,
        no_execute: h.flags & PF_X != PF_X,
        backing: if h.file_size == 0 {
            Backing::Anonymous
        } else {
            Backing::File {
                data_offset: data_off as u64,
                file_size: h.file_size,
                file_offset: h.offset,
                cache_pages: ((data_off + h.file_size + 0xFFF) / PAGE_SIZE as int) as u64,
            }
        },
    }
}

/// The areas of the loadable segments among `hs`, in order.
pub open spec fn segment_areas(hs: Seq<SegmentHeader>) -> Seq<AreaPlan>
    decreases hs.len(),
{
    if hs.len() == 0 {
        Seq::empty()
    } else {
        let p = segment_areas(hs.drop_last());
        if hs.last().kind == PT_LOAD { p.push(segment_area(hs.last())) } else { p }
    }
}

/// The area `a` lays out the loadable segment `h`: it runs from the start of the page holding
/// the segment's first byte to the first page boundary at or past its end, with the segment's
/// access rights; its file bytes, if it has any, are cached at their offset within that first
/// page, in exactly as many pages as they then span.
pub open spec fn lays_out(a: AreaPlan, h: SegmentHeader) -> bool {
    let v = h.vaddr as int;
    &&& a.start == v - v % 4096
    &&& a.end % 4096 == 0
    &&& h.vaddr + h.mem_size <= a.end < h.vaddr + h.mem_size + 4096
    &&& a.writable == (h.flags & PF_W == PF_W)
    &&& a.no_execute == (h.flags & PF_X != PF_X)
    &&& match a.backing {
        Backing::Anonymous => h.file_size == 0,
        Backing::File { data_offset, file_size, file_offset, cache_pages } => {
            &&& h.file_size > 0
            &&& data_offset == v % 4096
            &&& file_size == h.file_size
            &&& file_offset == h.offset
            &&& (cache_pages - 1) * 4096 < data_offset + file_size <= cache_pages * 4096
        },
    }
}

/// The area `a` lays out one of the loadable segments among `hs`.
pub open spec fn lays_out_one_of(a: AreaPlan, hs: Seq<SegmentHeader>) -> bool {
    exists|j: int| 0 <= j < hs.len() && hs[j].kind == PT_LOAD && #[trigger] lays_out(a, hs[j])
}

/// Law: the area planned for a loadable segment that fits lays it out (see [`lays_out`]): in
/// particular its cache covers the segment's file bytes placed at their in-page offset.
pub proof fn lemma_segment_area_lays_out(h: SegmentHeader, file_len: u64)
    requires
        h.kind == PT_LOAD,
        segment_fits(h, file_len),
    ensures
        lays_out(segment_area(h), h),
{
}

/// Law: every area planned for the segments `hs` lays out one of their loadable segments.
pub proof fn lemma_segment_areas_lay_out(hs: Seq<SegmentHeader>, file_len: u64)
    requires
        forall|i: int| 0 <= i < hs.len() ==> segment_fits(#[trigger] hs[i], file_len),
    ensures
        forall|k: int| 0 <= k < segment_areas(hs).len() ==> lays_out_one_of(#[trigger] segment_areas(hs)[k], hs),
    decreases hs.len(),
{
    if hs.len() > 0 {
        let d = hs.drop_last();
        assert forall|i: int| 0 <= i < d.len() implies segment_fits(#[trigger] d[i], file_len) by {
            assert(d[i] == hs[i]);
        }
        lemma_segment_areas_lay_out(d, file_len);
        let p = segment_areas(d);
        assert forall|k: int| 0 <= k < segment_areas(hs).len() implies lays_out_one_of(#[trigger] segment_areas(hs)[k], hs) by {
            if k < p.len() {
                assert(segment_areas(hs)[k] == p[k]);
                assert(lays_out_one_of(p[k], d));
                let j = choose|j: int| 0 <= j < d.len() && d[j].kind == PT_LOAD && #[trigger] lays_out(p[k], d[j]);
                assert(hs[j] == d[j]);
            } else {
                let j = hs.len() - 1;
                assert(segment_fits(hs[j], file_len));
                lemma_segment_area_lays_out(hs[j], file_len);
                assert(segment_areas(hs)[k] == segment_area(hs[j]));
                assert(lays_out(segment_areas(hs)[k], hs[j]));
            }
        }
    }
}

/// The user stack area.
pub open spec fn stack_area() -> AreaPlan {
    AreaPlan {
        start: (USER_STACK_TOP - USER_STACK_SIZE + PAGE_SIZE) as u64,
        end: USER_STACK_TOP,
        writable: true,
        no_execute: false,
        backing: Backing::Anonymous,
    }
}

/// The access rights of a segment's pages from its flags: writable if the segment is writable,
/// not executable unless the segment is executable.
pub fn page_flags(flags: u32) -> (r: (bool, bool))
    ensures
        r.0 == (flags & PF_W == PF_W),
        r.1 == (flags & PF_X != PF_X),
{
    (flags & PF_W == PF_W, flags & PF_X != PF_X)
}

/// The area of one loadable segment.
fn plan_segment(h: &SegmentHeader) -> (r: AreaPlan)
    requires
        h.kind == PT_LOAD,
        h.vaddr + h.mem_size + 0xFFF <= u64::MAX,
        (h.vaddr as int % (PAGE_SIZE as int)) + h.file_size + 0xFFF <= u64::MAX,
    ensures
        r == segment_area(*h),
{
    let virt_addr = h.vaddr;
    let segment_base = virt_addr & !0xFFFu64;
    let end = virt_addr + h.mem_size + 0xFFF;
    let segment_top = end & !0xFFFu64;
    proof {
        assert(virt_addr & !0xFFFu64 == virt_addr - virt_addr % 4096) by (bit_vector);
        assert(end & !0xFFFu64 == end - end % 4096) by (bit_vector);
    }
    let data_off = virt_addr - segment_base;
    let (writable, no_execute) = page_flags(h.flags);
    let backing = if h.file_size == 0 {
        Backing::Anonymous
    } else {
        Backing::File {
            data_offset: data_off,
            file_size: h.file_size,
            file_offset: h.offset,
            cache_pages: (data_off + h.file_size + 0xFFF) / PAGE_SIZE,
        }
    };
    AreaPlan { start: segment_base, end: segment_top, writable, no_execute, backing }
}

/// The layout of the ELF binary of type `elf_type`, entry point `entry` and program headers
/// `headers`, read from a file of `file_len` bytes: the area of each loadable segment in
/// order, then the user stack. A file that is neither an executable nor a shared object is
/// refused.
pub fn load_elf(elf_type: u16, entry: u64, headers: &[SegmentHeader], file_len: u64) -> (r: Result<LoadPlan, LoaderError>)
    requires
        forall|i: int| 0 <= i < headers@.len() ==> segment_fits(#[trigger] headers@[i], file_len),
    ensures
        elf_type != ELF_TYPE_EXECUTABLE && elf_type != ELF_TYPE_SHARED_OBJECT
            ==> r == Err::<LoadPlan, LoaderError>(LoaderError::NotExecutable),
        (elf_type == ELF_TYPE_EXECUTABLE || elf_type == ELF_TYPE_SHARED_OBJECT) ==> (r matches Ok(p)
            && p.entry == entry
            && p.user_sp == USER_STACK_TOP
            && p.areas@ == segment_areas(headers@).push(stack_area())),
        r matches Ok(p) ==> forall|k: int| 0 <= k < p.areas@.len() - 1 ==> lays_out_one_of(#[trigger] p.areas@[k], headers@),
{
    if elf_type != ELF_TYPE_EXECUTABLE && elf_type != ELF_TYPE_SHARED_OBJECT {
        return Err(LoaderError::NotExecutable);
    }
    proof {
        lemma_segment_areas_lay_out(headers@, file_len);
    }
    let mut areas: Vec<AreaPlan> = Vec::new();
    let mut i: usize = 0;
    while i < headers.len()
        invariant
            i <= headers@.len(),
            forall|k: int| 0 <= k < headers@.len() ==> segment_fits(#[trigger] headers@[k], file_len),
            areas@ == segment_areas(headers@.subrange(0, i as int)),
        decreases headers@.len() - i,
    {
        let h = headers[i];
        proof {
            assert(headers@.subrange(0, i + 1).drop_last() =~= headers@.subrange(0, i as int));
            assert(headers@.subrange(0, i + 1).last() == h);
            assert(segment_fits(headers@[i as int], file_len));
        }
        if h.kind == PT_LOAD {
            let a = plan_segment(&h);
            areas.push(a);
        }
        i = i + 1;
    }
    assert(headers@.subrange(0, headers@.len() as int) =~= headers@);
    areas.push(AreaPlan {
        start: USER_STACK_TOP - USER_STACK_SIZE + PAGE_SIZE,
        end: USER_STACK_TOP,
        writable: true,
        no_execute: false,
        backing: Backing::Anonymous,
    });
    proof {
        assert forall|k: int| 0 <= k < areas@.len() - 1 implies lays_out_one_of(#[trigger] areas@[k], headers@) by {
            assert(areas@[k] == segment_areas(headers@)[k]);
        }
    }
    Ok(LoadPlan { entry, user_sp: USER_STACK_TOP, areas })
}


/// Whether the segment `h` of a file of `file_len` bytes can be planned (see [`segment_fits`]):
/// the original's arithmetic on it does not overflow and its bytes lie within the file.
pub fn segment_fits_file(h: &SegmentHeader, file_len: u64) -> (r: bool)
    ensures
        r == segment_fits(*h, file_len),
{
    if h.kind != PT_LOAD {
        return true;
    }
    let page_off = h.vaddr % PAGE_SIZE;
    let top_ok = h.mem_size <= u64::MAX - 0xFFF && h.vaddr <= u64::MAX - 0xFFF - h.mem_size;
    let cache_ok = h.file_size <= u64::MAX - 0xFFF && page_off <= u64::MAX - 0xFFF - h.file_size;
    let data_ok = h.file_size == 0 || (h.offset <= u64::MAX - h.file_size && h.offset + h.file_size <= file_len);
    top_ok && cache_ok && data_ok
}

/// The layout of an ELF binary whose headers were read from a file of `file_len` bytes: a file
/// of another type is `NotExecutable`; an executable with a segment that does not fit (see
/// [`segment_fits`]) is `InvalidFile`; otherwise the plan of [`load_elf`].
pub fn plan_binary(elf_type: u16, entry: u64, headers: &[SegmentHeader], file_len: u64) -> (r: Result<LoadPlan, LoaderError>)
    ensures
        elf_type != ELF_TYPE_EXECUTABLE && elf_type != ELF_TYPE_SHARED_OBJECT
            ==> r == Err::<LoadPlan, LoaderError>(LoaderError::NotExecutable),
        (elf_type == ELF_TYPE_EXECUTABLE || elf_type == ELF_TYPE_SHARED_OBJECT)
            && !(forall|i: int| 0 <= i < headers@.len() ==> segment_fits(#[trigger] headers@[i], file_len))
            ==> r == Err::<LoadPlan, LoaderError>(LoaderError::InvalidFile),
        (elf_type == ELF_TYPE_EXECUTABLE || elf_type == ELF_TYPE_SHARED_OBJECT)
            && (forall|i: int| 0 <= i < headers@.len() ==> segment_fits(#[trigger] headers@[i], file_len))
            ==> (r matches Ok(p) && p.entry == entry && p.user_sp == USER_STACK_TOP
                && p.areas@ == segment_areas(headers@).push(stack_area())),
        r matches Ok(p) ==> forall|k: int| 0 <= k < p.areas@.len() - 1 ==> lays_out_one_of(#[trigger] p.areas@[k], headers@),
{
    if elf_type != ELF_TYPE_EXECUTABLE && elf_type != ELF_TYPE_SHARED_OBJECT {
        return Err(LoaderError::NotExecutable);
    }
    let mut i: usize = 0;
    while i < headers.len()
        invariant
            i <= headers@.len(),
            forall|k: int| 0 <= k < i ==> segment_fits(#[trigger] headers@[k], file_len),
            elf_type == ELF_TYPE_EXECUTABLE || elf_type == ELF_TYPE_SHARED_OBJECT,
        decreases headers@.len() - i,
    {
        if !segment_fits_file(&headers[i], file_len) {
            return Err(LoaderError::InvalidFile);
        }
        i = i + 1;
    }
    load_elf(elf_type, entry, headers, file_len)
}

} // verus!
