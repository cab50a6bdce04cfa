//! Memory management helpers: address spaces, page-table index arithmetic and the checks of
//! memory-mapped register access.

use vstd::prelude::*;

verus! {

/// Which half of the virtual address space an allocator serves.
#[derive(Debug, Clone, Copy, PartialEq, Eq, Structural)]
pub enum AddressSpace {
    /// The higher-half address space.
    Kernel,
    /// The lower-half address space.
    User,
}

/// Hands out page-table frames from the physical memory manager.
pub struct PMMFrameAllocator;

/// Gives page-table frames back to the physical memory manager.
pub struct PMMFrameDeallocator;

/// Maps physical frames into the higher-half direct map at this offset.
pub struct PhysOffset(pub u64);

impl PhysOffset {
    /// The virtual address at which the frame starting at `frame_start` is reached.
    pub fn frame_to_pointer(&self, frame_start: u64) -> (r: u64)
        requires
            frame_start + self.0 <= u64::MAX,
        ensures
            r == frame_start + self.0,
    {
        frame_start + self.0
    }
}

/// The virtual address selected by the four page-table indices: 9 bits each above the 12-bit
/// page offset, sign-extended from bit 47.
pub open spec fn spec_index_to_addr(l4: u64, l3: u64, l2: u64, l1: u64) -> u64 {
    let a = l4 * 0x80_0000_0000 + l3 * 0x4000_0000 + l2 * 0x20_0000 + l1 * 0x1000;
    if l4 >= 256 { (a + 0xFFFF_0000_0000_0000) as u64 } else { a as u64 }
}

/// The virtual address of the page that indices `l4`, `l3`, `l2`, `l1` (each below 512) select.
pub fn index_to_addr(l4: u64, l3: u64, l2: u64, l1: u64) -> (r: u64)
    requires
        l4 < 512,
        l3 < 512,
        l2 < 512,
        l1 < 512,
    ensures
        r == spec_index_to_addr(l4, l3, l2, l1),
{
    let mut addr = (l4 << 39u64) | (l3 << 30u64) | (l2 << 21u64) | (l1 << 12u64);
    proof {
        assert((l4 << 39u64) | (l3 << 30u64) | (l2 << 21u64) | (l1 << 12u64)
            == l4 * 0x80_0000_0000 + l3 * 0x4000_0000 + l2 * 0x20_0000 + l1 * 0x1000) by (bit_vector)
            requires l4 < 512, l3 < 512, l2 < 512, l1 < 512;
        assert(((addr >> 47u64) & 1 == 1) == (l4 >= 256)) by (bit_vector)
            requires addr == (l4 << 39u64) | (l3 << 30u64) | (l2 << 21u64) | (l1 << 12u64), l4 < 512, l3 < 512, l2 < 512, l1 < 512;
    }
    let sign_extension_needed = (addr >> 47u64) & 1 == 1;
    if sign_extension_needed {
        proof {
            assert(addr | 0xFFFF_0000_0000_0000u64 == addr + 0xFFFF_0000_0000_0000u64) by (bit_vector)
                requires addr < 0x1_0000_0000_0000u64;
        }
        addr = addr | 0xFFFF_0000_0000_0000;
    }
    addr
}

/// Whether a register of `size` bytes and alignment `align` can be read at `offset` of a
/// region of `region_size` bytes: the offset is aligned and the register lies within.
pub fn register_fits(offset: u64, size: u64, align: u64, region_size: u64) -> (r: bool)
    requires
        align > 0,
        offset + size <= u64::MAX,
    ensures
        r == (offset % align == 0 && offset + size <= region_size),
{
    if offset % align != 0 {
        return false;
    }
    if offset + size > region_size {
        return false;
    }
    true
}

/// Bytes of a 4 KiB page.
pub const PAGE_4K: u64 = 0x1000;

/// Bytes of a 2 MiB page.
pub const PAGE_2M: u64 = 0x20_0000;

/// Bytes of a 1 GiB page.
pub const PAGE_1G: u64 = 0x4000_0000;

/// How many pages of `page` bytes map the start of `size` bytes from `virt` to `phys`: as many
/// as fit, if there is room for one and both addresses are aligned to it, else none.
pub open spec fn huge_count(size: int, virt: int, phys: int, page: int) -> int {
    if size >= page && phys % page == 0 && virt % page == 0 { size / page } else { 0 }
}

/// `n` pages of `page` bytes, mapping from `virt` to `phys` upward.
pub open spec fn run_of(virt: int, phys: int, page: int, n: int) -> Seq<(u64, u64, u64)> {
    Seq::new(n as nat, |i: int| ((virt + i * page) as u64, (phys + i * page) as u64, page as u64))
}

/// The pages that map `size` bytes from `virt` to `phys`: 1 GiB pages while both addresses are
/// aligned to them, then 2 MiB pages likewise, then 4 KiB pages for the rest, rounded up.
pub open spec fn mapping_plan(virt: int, phys: int, size: int) -> Seq<(u64, u64, u64)> {
    let g = PAGE_1G as int;
    let m = PAGE_2M as int;
    let k = PAGE_4K as int;
    let n1 = huge_count(size, virt, phys, g);
    let v1 = virt + n1 * g;
    let p1 = phys + n1 * g;
    let r1 = size - n1 * g;
    let n2 = huge_count(r1, v1, p1, m);
    let v2 = v1 + n2 * m;
    let p2 = p1 + n2 * m;
    let r2 = r1 - n2 * m;
    run_of(virt, phys, g, n1) + run_of(v1, p1, m, n2) + run_of(v2, p2, k, (r2 + k - 1) / k)
}

/// Appends `n` pages of `page` bytes from `virt`/`phys` to `plan`.
fn push_run(plan: &mut Vec<(u64, u64, u64)>, virt: u64, phys: u64, page: u64, n: u64)
    requires
        virt + n * page <= u64::MAX,
        phys + n * page <= u64::MAX,
    ensures
        final(plan)@ == old(plan)@ + run_of(virt as int, phys as int, page as int, n as int),
{
    let mut i: u64 = 0;
    let mut v = virt;
    let mut p = phys;
    while i < n
        invariant
            i <= n,
            v == virt + i * page,
            p == phys + i * page,
            virt + n * page <= u64::MAX,
            phys + n * page <= u64::MAX,
            plan@ == old(plan)@ + run_of(virt as int, phys as int, page as int, i as int),
        decreases n - i,
    {
        proof {
            assert(virt + (i + 1) * page <= virt + n * page) by (nonlinear_arith)
                requires i < n, page >= 0;
            assert(phys + (i + 1) * page <= phys + n * page) by (nonlinear_arith)
                requires i < n, page >= 0;
            assert((i + 1) * page == i * page + page) by (nonlinear_arith);
        }
        plan.push((v, p, page));
        v = v + page;
        p = p + page;
        i = i + 1;
        assert(plan@ =~= old(plan)@ + run_of(virt as int, phys as int, page as int, i as int));
    }
}

/// The pages, as `(virtual address, physical address, page size)`, that map the region of
/// `size` bytes at `virt` to `phys` (see [`mapping_plan`]).
pub fn plan_mapping(virt: u64, phys: u64, size: u64) -> (r: Vec<(u64, u64, u64)>)
    requires
        virt + size + PAGE_4K <= u64::MAX,
        phys + size + PAGE_4K <= u64::MAX,
    ensures
        r@ == mapping_plan(virt as int, phys as int, size as int),
        forall|i: int| 0 <= i < r@.len() ==> well_placed(#[trigger] r@[i], virt as int, phys as int),
{
    proof {
        lemma_mapping_pages_aligned(virt, phys, size);
    }
    let mut plan: Vec<(u64, u64, u64)> = Vec::new();
    let mut rem = size;
    let mut v = virt;
    let mut p = phys;
    let n1: u64 = if rem >= PAGE_1G && p % PAGE_1G == 0 && v % PAGE_1G == 0 { rem / PAGE_1G } else { 0 };
    proof {
        vstd::arithmetic::div_mod::lemma_fundamental_div_mod(size as int, PAGE_1G as int);
        assert(n1 * PAGE_1G <= size) by (nonlinear_arith)
            requires n1 == 0 || n1 == size / 0x4000_0000, size == 0x4000_0000 * (size / 0x4000_0000) + size % 0x4000_0000,
                size % 0x4000_0000 >= 0;
    }
    push_run(&mut plan, v, p, PAGE_1G, n1);
    v = v + n1 * PAGE_1G;
    p = p + n1 * PAGE_1G;
    rem = rem - n1 * PAGE_1G;
    let n2: u64 = if rem >= PAGE_2M && p % PAGE_2M == 0 && v % PAGE_2M == 0 { rem / PAGE_2M } else { 0 };
    proof {
        vstd::arithmetic::div_mod::lemma_fundamental_div_mod(rem as int, PAGE_2M as int);
        assert(n2 * PAGE_2M <= rem) by (nonlinear_arith)
            requires n2 == 0 || n2 == rem / 0x20_0000, rem == 0x20_0000 * (rem / 0x20_0000) + rem % 0x20_0000,
                rem % 0x20_0000 >= 0;
    }
    push_run(&mut plan, v, p, PAGE_2M, n2);
    v = v + n2 * PAGE_2M;
    p = p + n2 * PAGE_2M;
    rem = rem - n2 * PAGE_2M;
    let n3 = rem / PAGE_4K + if rem % PAGE_4K != 0 { 1 } else { 0 };
    proof {
        vstd::arithmetic::div_mod::lemma_fundamental_div_mod(rem as int, PAGE_4K as int);
        vstd::arithmetic::div_mod::lemma_fundamental_div_mod_converse(rem + 0xFFF, 0x1000, n3 as int,
            if rem % 0x1000 != 0 { rem % 0x1000 - 1 } else { 0xFFF });
        assert(n3 * PAGE_4K <= rem + PAGE_4K) by (nonlinear_arith)
            requires n3 == rem / 0x1000 + (if rem % 0x1000 != 0 { 1int } else { 0int }),
                rem == 0x1000 * (rem / 0x1000) + rem % 0x1000, 0 <= rem % 0x1000 < 0x1000;
    }
    push_run(&mut plan, v, p, PAGE_4K, n3);
    plan
}

/// The page `e`, as `(virtual address, physical address, page size)`, is well placed in a
/// mapping from `virt` to `phys`: it is a page of one of the three sizes, it keeps the offset
/// between the two addresses, it lies at or above `virt`, and both its addresses are aligned to
/// its size, for a 4 KiB page as soon as `virt` and `phys` are.
pub open spec fn well_placed(e: (u64, u64, u64), virt: int, phys: int) -> bool {
    &&& e.2 == PAGE_1G || e.2 == PAGE_2M || e.2 == PAGE_4K
    &&& e.0 - virt == e.1 - phys
    &&& virt <= e.0
    &&& (e.2 != PAGE_4K || (virt % (PAGE_4K as int) == 0 && phys % (PAGE_4K as int) == 0))
        ==> e.0 % e.2 == 0 && e.1 % e.2 == 0
}

/// Every page of a run of `n` pages of `page` bytes from `v0`/`p0` is well placed in a mapping
/// from `virt` to `phys`.
proof fn lemma_run_well_placed(virt: int, phys: int, v0: int, p0: int, page: int, n: int)
    requires
        page == PAGE_1G || page == PAGE_2M || page == PAGE_4K,
        v0 - virt == p0 - phys,
        virt <= v0,
        0 <= n,
        v0 + n * page <= u64::MAX,
        p0 + n * page <= u64::MAX,
        0 <= p0,
        0 <= v0,
        n > 0 && (page != PAGE_4K || (virt % (PAGE_4K as int) == 0 && phys % (PAGE_4K as int) == 0))
            ==> v0 % page == 0 && p0 % page == 0,
    ensures
        forall|i: int| 0 <= i < n ==> well_placed(#[trigger] run_of(v0, p0, page, n)[i], virt, phys),
{
    assert forall|i: int| 0 <= i < n implies well_placed(#[trigger] run_of(v0, p0, page, n)[i], virt, phys) by {
        assert(0 <= i * page <= n * page) by (nonlinear_arith)
            requires 0 <= i < n, page > 0;
        vstd::arithmetic::div_mod::lemma_mod_multiples_vanish(i, v0, page);
        vstd::arithmetic::div_mod::lemma_mod_multiples_vanish(i, p0, page);
        assert(page * i == i * page) by (nonlinear_arith);
        let e = run_of(v0, p0, page, n)[i];
        assert(e.0 == v0 + i * page);
        assert(e.1 == p0 + i * page);
        assert(e.2 == page);
        assert((v0 + i * page) % page == v0 % page);
        assert((p0 + i * page) % page == p0 % page);
    }
}

/// Law: every page that [`plan_mapping`] plans is well placed (see [`well_placed`]): a 1 GiB or
/// 2 MiB page only where both its virtual and its physical address are aligned to its size.
pub proof fn lemma_mapping_pages_aligned(virt: u64, phys: u64, size: u64)
    requires
        virt + size + PAGE_4K <= u64::MAX,
        phys + size + PAGE_4K <= u64::MAX,
    ensures
        forall|i: int| 0 <= i < mapping_plan(virt as int, phys as int, size as int).len()
            ==> well_placed(#[trigger] mapping_plan(virt as int, phys as int, size as int)[i], virt as int, phys as int),
{
    let g = PAGE_1G as int;
    let m = PAGE_2M as int;
    let k = PAGE_4K as int;
    let n1 = huge_count(size as int, virt as int, phys as int, g);
    let v1 = virt + n1 * g;
    let p1 = phys + n1 * g;
    let r1 = size - n1 * g;
    let n2 = huge_count(r1, v1, p1, m);
    let v2 = v1 + n2 * m;
    let p2 = p1 + n2 * m;
    let r2 = r1 - n2 * m;
    let n3 = (r2 + k - 1) / k;
    vstd::arithmetic::div_mod::lemma_fundamental_div_mod(size as int, g);
    assert(0 <= n1 * g <= size) by (nonlinear_arith)
        requires n1 == 0 || n1 == size / 0x4000_0000, size == 0x4000_0000 * (size / 0x4000_0000) + size % 0x4000_0000,
            size % 0x4000_0000 >= 0, size >= 0, g == 0x4000_0000;
    vstd::arithmetic::div_mod::lemma_fundamental_div_mod(r1, m);
    assert(0 <= n2 * m <= r1) by (nonlinear_arith)
        requires n2 == 0 || n2 == r1 / 0x20_0000, r1 == 0x20_0000 * (r1 / 0x20_0000) + r1 % 0x20_0000,
            r1 % 0x20_0000 >= 0, r1 >= 0, m == 0x20_0000;
    assert(0 <= n3 * k <= r2 + k) by (nonlinear_arith)
        requires n3 == (r2 + 0xFFF) / 0x1000, r2 >= 0, k == 0x1000;
    assert(n1 * g == 4096 * (n1 * 262144));
    assert(n2 * m == 4096 * (n2 * 512));
    vstd::arithmetic::div_mod::lemma_mod_multiples_vanish(n1 * 262144, virt as int, 4096);
    vstd::arithmetic::div_mod::lemma_mod_multiples_vanish(n1 * 262144, phys as int, 4096);
    vstd::arithmetic::div_mod::lemma_mod_multiples_vanish(n2 * 512, v1, 4096);
    vstd::arithmetic::div_mod::lemma_mod_multiples_vanish(n2 * 512, p1, 4096);
    lemma_run_well_placed(virt as int, phys as int, virt as int, phys as int, g, n1);
    lemma_run_well_placed(virt as int, phys as int, v1, p1, m, n2);
    lemma_run_well_placed(virt as int, phys as int, v2, p2, k, n3);
    let a = run_of(virt as int, phys as int, g, n1);
    let b = run_of(v1, p1, m, n2);
    let c = run_of(v2, p2, k, n3);
    assert(mapping_plan(virt as int, phys as int, size as int) == a + b + c);
    assert forall|i: int| 0 <= i < (a + b + c).len() implies well_placed(#[trigger] (a + b + c)[i], virt as int, phys as int) by {
        if i < a.len() {
            assert((a + b + c)[i] == a[i]);
        } else if i < a.len() + b.len() {
            assert((a + b + c)[i] == b[i - a.len()]);
        } else {
            assert((a + b + c)[i] == c[i - a.len() - b.len()]);
        }
    }
}

/// The size in bytes and the alignment of a region of `count` 4 KiB pages: aligned to 1 GiB
/// when the count fills whole 1 GiB pages, else to 2 MiB when it fills whole 2 MiB pages, else
/// to 4 KiB. No pages is no region.
pub fn region_shape(count: usize) -> (r: Option<(usize, usize)>)
    requires
        count * 0x1000 <= usize::MAX,
    ensures
        count == 0 ==> r is None,
        count > 0 ==> r == Some(((count * 0x1000) as usize,
            (if count % 0x4_0000 == 0 { 0x4000_0000usize } else if count % 0x200 == 0 { 0x20_0000usize } else { 0x1000usize }))),
{
    if count == 0 {
        return None;
    }
    let align: usize = if count % 0x4_0000 == 0 { 0x4000_0000 } else if count % 0x200 == 0 { 0x20_0000 } else { 0x1000 };
    Some((count * 0x1000, align))
}

} // verus!
