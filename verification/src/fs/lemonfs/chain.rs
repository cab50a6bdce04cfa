//! Building the link chain of a file from the sectors that hold its data: adjacent sectors are
//! merged into extents, and when there is more than one extent they are listed in link blocks,
//! 31 per block, each block pointing to the next.

use vstd::prelude::*;
use super::bitmap::{BitmapAllocator, first_fit, set_range};
use super::disk::{LinkBlock, LinkPointer};
use crate::fs::FSError;

verus! {

/// Sector size in bytes.
pub const SECTOR_SIZE: u64 = 512;

/// Extents listed by one link block; its last slot points to the next block.
pub const EXTENTS_PER_LINK_BLOCK: usize = 31;

/// The extents of the sectors `blocks`, in order: a sector right after the end of the previous
/// extent extends it, any other starts a new one-sector extent.
pub open spec fn coalesce(blocks: Seq<u64>) -> Seq<LinkPointer>
    decreases blocks.len(),
{
    if blocks.len() == 0 {
        Seq::empty()
    } else {
        let c = coalesce(blocks.drop_last());
        let b = blocks.last();
        if c.len() > 0 && c.last().start + c.last().size / 512 == b {
            c.update(c.len() - 1, LinkPointer { start: c.last().start, size: (c.last().size + 512) as u64 })
        } else {
            c.push(LinkPointer { start: b, size: 512 })
        }
    }
}

/// The positions that `n` single-block allocations take one after the other, the bits they
/// leave, and whether all of them succeeded (they stop at the first failure).
pub open spec fn alloc_singles(bits: Seq<bool>, nblocks: int, n: nat) -> (Seq<int>, Seq<bool>, bool)
    decreases n,
{
    if n == 0 {
        (Seq::empty(), bits, true)
    } else {
        let (ps, b, ok) = alloc_singles(bits, nblocks, (n - 1) as nat);
        if !ok {
            (ps, b, false)
        } else {
            match first_fit(b, nblocks, 1) {
                Some(st) => (ps.push(st), set_range(b, st, 1, true), true),
                None => (ps, b, false),
            }
        }
    }
}

/// The null link pointer.
pub open spec fn null_link() -> LinkPointer {
    LinkPointer { start: 0, size: 0 }
}

/// Number of link blocks needed for `m` extents.
pub open spec fn link_blocks_needed(m: int) -> int {
    (m + 30) / 31
}

/// The slots of link block `i` of a chain listing `extents` in the blocks at `lbas`.
pub open spec fn chain_block(extents: Seq<LinkPointer>, lbas: Seq<u64>, i: int) -> Seq<LinkPointer> {
    Seq::new(32, |j: int|
        if j < 31 {
            if i * 31 + j < extents.len() { extents[i * 31 + j] } else { null_link() }
        } else if i + 1 < lbas.len() {
            LinkPointer { start: lbas[i + 1], size: 0 }
        } else {
            null_link()
        })
}

/// What building the chain of the sectors `blocks` gives, on an allocator whose bits go from
/// `b0` to `b1` and whose bit 0 stands for LBA `base` (see [`build_file_chain`]).
pub open spec fn chain_outcome(
    b0: Seq<bool>,
    b1: Seq<bool>,
    base: u64,
    nb: int,
    blocks: Seq<u64>,
    r: Result<(LinkPointer, Vec<(u64, LinkBlock)>), FSError>,
) -> bool {
    let e = coalesce(blocks);
    let n = link_blocks_needed(e.len() as int);
    let (ps, b, ok) = alloc_singles(b0, nb, n as nat);
    if e.len() == 1 {
        r matches Ok((head, w)) && head == e[0] && w@.len() == 0 && b1 == b0
    } else {
        &&& b1 == b
        &&& !ok ==> r == Err::<(LinkPointer, Vec<(u64, LinkBlock)>), FSError>(FSError::NoSpace)
        &&& ok ==> (r matches Ok((head, w)) && w@.len() == n
            && head == (LinkPointer { start: (base + ps[0]) as u64, size: 0 })
            && forall|i: int| 0 <= i < n ==> (#[trigger] w@[i]).0 == (base + ps[i]) as u64
                && w@[i].1.0@ == chain_block(e, Seq::new(n as nat, |k: int| (base + ps[k]) as u64), i))
    }
}

/// Merges `blocks` into extents (see [`coalesce`]).
pub fn coalesce_blocks(blocks: &[u64]) -> (r: Vec<LinkPointer>)
    requires
        forall|i: int| 0 <= i < blocks@.len() ==> #[trigger] blocks@[i] + blocks@.len() <= u64::MAX,
        blocks@.len() * 512 <= u64::MAX,
    ensures
        r@ == coalesce(blocks@),
        r@.len() <= blocks@.len(),
        forall|k: int| 0 <= k < r@.len() ==> #[trigger] r@[k].size > 0,
{
    let mut extents: Vec<LinkPointer> = Vec::new();
    let mut i: usize = 0;
    while i < blocks.len()
        invariant
            i <= blocks@.len(),
            forall|i: int| 0 <= i < blocks@.len() ==> #[trigger] blocks@[i] + blocks@.len() <= u64::MAX,
            blocks@.len() * 512 <= u64::MAX,
            extents@ == coalesce(blocks@.subrange(0, i as int)),
            extents@.len() <= i,
            forall|k: int| 0 <= k < extents@.len() ==> #[trigger] extents@[k].size % 512 == 0
                && extents@[k].size > 0 && extents@[k].size <= 512 * i
                && extents@[k].start + extents@[k].size / 512 <= u64::MAX,
            extents@.len() > 0 ==> extents@.last().start + extents@.last().size / 512 <= blocks@[i - 1] + i,
        decreases blocks@.len() - i,
    {
        let b = blocks[i];
        proof {
            assert(blocks@.subrange(0, i + 1).drop_last() =~= blocks@.subrange(0, i as int));
            assert(blocks@.subrange(0, i + 1).last() == b);
        }
        let n = extents.len();
        if n > 0 && extents[n - 1].start + extents[n - 1].size / 512 == b {
            let p = extents[n - 1];
            assert(p.size + 512 <= 512 * (i + 1)) by (nonlinear_arith) requires p.size <= 512 * i;
            assert(512 * (i + 1) <= blocks@.len() * 512) by (nonlinear_arith) requires i < blocks@.len();
            let q = LinkPointer { start: p.start, size: p.size + 512 };
            extents.set(n - 1, q);
            proof {
                assert((p.size + 512) / 512 == p.size / 512 + 1) by (nonlinear_arith) requires p.size % 512 == 0;
                assert((p.size + 512) % 512 == 0) by (nonlinear_arith) requires p.size % 512 == 0;
            }
        } else {
            extents.push(LinkPointer { start: b, size: 512 });
            proof {
                assert(512 <= 512 * (i + 1)) by (nonlinear_arith);
            }
        }
        i = i + 1;
        proof {
            assert forall|k: int| 0 <= k < extents@.len() implies #[trigger] extents@[k].size <= 512 * i by {
                assert(512 * (i - 1) <= 512 * i) by (nonlinear_arith);
            }
        }
    }
    assert(blocks@.subrange(0, blocks@.len() as int) =~= blocks@);
    extents
}

/// Allocates `n` blocks one at a time; stops at the first failure.
fn alloc_link_blocks(bitmap: &mut BitmapAllocator, n: usize) -> (r: Result<Vec<u64>, FSError>)
    requires
        old(bitmap).wf(),
    ensures
        final(bitmap).wf(),
        final(bitmap).base() == old(bitmap).base(),
        final(bitmap).num_blocks() == old(bitmap).num_blocks(),
        ({
            let (ps, b, ok) = alloc_singles(old(bitmap).bits(), old(bitmap).num_blocks() as int, n as nat);
            &&& final(bitmap).bits() == b
            &&& ok ==> (r matches Ok(l) && l@.len() == n
                && forall|k: int| 0 <= k < n ==> #[trigger] l@[k] == (old(bitmap).base() + ps[k]) as u64)
            &&& !ok ==> r == Err::<Vec<u64>, FSError>(FSError::NoSpace)
        }),
{
    let ghost bits0 = bitmap.bits();
    let ghost nb = bitmap.num_blocks() as int;
    let mut lbas: Vec<u64> = Vec::new();
    let mut i: usize = 0;
    while i < n
        invariant
            bitmap.wf(),
            bitmap.base() == old(bitmap).base(),
            bitmap.num_blocks() == old(bitmap).num_blocks(),
            nb == old(bitmap).num_blocks(),
            bits0 == old(bitmap).bits(),
            i <= n,
            alloc_singles(bits0, nb, i as nat).2,
            bitmap.bits() == alloc_singles(bits0, nb, i as nat).1,
            lbas@.len() == i,
            forall|k: int| 0 <= k < i ==> #[trigger] lbas@[k] == (old(bitmap).base() + alloc_singles(bits0, nb, i as nat).0[k]) as u64,
            alloc_singles(bits0, nb, i as nat).0.len() == i,
        decreases n - i,
    {
        let ghost prev = alloc_singles(bits0, nb, i as nat);
        match bitmap.allocate(1) {
            Some(lba) => {
                let ghost before = lbas@;
                lbas.push(lba);
                proof {
                    let st = first_fit(prev.1, nb, 1)->0;
                    let next = alloc_singles(bits0, nb, (i + 1) as nat);
                    assert(next.0 == prev.0.push(st));
                    assert(next.1 == set_range(prev.1, st, 1, true));
                    assert(next.2);
                    assert(lba == (old(bitmap).base() + st) as u64);
                    assert forall|k: int| 0 <= k < i + 1 implies #[trigger] lbas@[k] == (old(bitmap).base() + next.0[k]) as u64 by {
                        if k < i { assert(lbas@[k] == before[k]); }
                    }
                }
            },
            None => {
                proof {
                    assert forall|m: nat| i < m <= n implies !(#[trigger] alloc_singles(bits0, nb, m)).2
                        && alloc_singles(bits0, nb, m).1 == prev.1 by {
                        lemma_alloc_singles_stuck(bits0, nb, i as nat, m);
                    }
                }
                return Err(FSError::NoSpace);
            },
        }
        i = i + 1;
    }
    Ok(lbas)
}

/// Once an allocation has failed, no later one is made.
proof fn lemma_alloc_singles_stuck(bits: Seq<bool>, nb: int, i: nat, m: nat)
    requires
        i < m,
        alloc_singles(bits, nb, i).2,
        first_fit(alloc_singles(bits, nb, i).1, nb, 1) is None,
    ensures
        !alloc_singles(bits, nb, m).2,
        alloc_singles(bits, nb, m).1 == alloc_singles(bits, nb, i).1,
    decreases m - i,
{
    if m > i + 1 {
        lemma_alloc_singles_stuck(bits, nb, i, (m - 1) as nat);
    }
}

/// The link chain of a file whose data lies in the sectors `blocks`, in order. A single extent
/// is the chain itself. Otherwise one block per 31 extents is allocated, one at a time, and the
/// chain is the indirect pointer to the first of them; the blocks to write are returned with
/// their LBAs: block `i` lists extents `31 i` to `31 i + 30` and points to block `i + 1`. An
/// allocation that fails refuses with `NoSpace`, the blocks taken before it staying taken.
pub fn build_file_chain(bitmap: &mut BitmapAllocator, blocks: &[u64]) -> (r: Result<(LinkPointer, Vec<(u64, LinkBlock)>), FSError>)
    requires
        old(bitmap).wf(),
        blocks@.len() > 0,
        forall|i: int| 0 <= i < blocks@.len() ==> #[trigger] blocks@[i] + blocks@.len() <= u64::MAX,
        blocks@.len() * 512 <= usize::MAX,
    ensures
        final(bitmap).wf(),
        final(bitmap).base() == old(bitmap).base(),
        final(bitmap).num_blocks() == old(bitmap).num_blocks(),
        chain_outcome(old(bitmap).bits(), final(bitmap).bits(), old(bitmap).base(), old(bitmap).num_blocks() as int, blocks@, r),
{
    let extents = coalesce_blocks(blocks);
    let m = extents.len();
    proof {
        lemma_coalesce_nonempty(blocks@);
    }
    if m == 1 {
        return Ok((extents[0], Vec::new()));
    }
    let needed = m / EXTENTS_PER_LINK_BLOCK + if m % EXTENTS_PER_LINK_BLOCK != 0 { 1usize } else { 0usize };
    proof {
        vstd::arithmetic::div_mod::lemma_fundamental_div_mod(m as int, 31);
        assert(needed == link_blocks_needed(m as int)) by {
            vstd::arithmetic::div_mod::lemma_fundamental_div_mod_converse(m + 30, 31, needed as int,
                if m % 31 != 0 { m % 31 - 1 } else { 30 });
        }
        assert(needed * 31 >= m) by (nonlinear_arith)
            requires needed == m / 31 + (if m % 31 != 0 { 1int } else { 0int }), m == 31 * (m / 31) + m % 31, 0 <= m % 31 < 31;
        assert(needed >= 1);
    }
    let lbas = alloc_link_blocks(bitmap, needed)?;
    let ghost ls = lbas@;
    let mut out: Vec<(u64, LinkBlock)> = Vec::new();
    let mut i: usize = 0;
    while i < needed
        invariant
            m == extents@.len(),
            m >= 2,
            m * 512 <= usize::MAX,
            needed == link_blocks_needed(m as int),
            needed * 31 >= m,
            lbas@ == ls,
            ls.len() == needed,
            i <= needed,
            out@.len() == i,
            forall|k: int| 0 <= k < i ==> (#[trigger] out@[k]).0 == ls[k] && out@[k].1.0@ == chain_block(extents@, ls, k),
        decreases needed - i,
    {
        let mut arr = [LinkPointer { start: 0, size: 0 }; 32];
        assert(i * 31 + 31 <= needed * 31) by (nonlinear_arith) requires i < needed;
        assert(needed * 31 <= m + 30) by (nonlinear_arith) requires needed == (m + 30) / 31;
        let base = i * EXTENTS_PER_LINK_BLOCK;
        let end = if base + EXTENTS_PER_LINK_BLOCK < m { base + EXTENTS_PER_LINK_BLOCK } else { m };
        let mut j: usize = 0;
        while j < 31
            invariant
                base == i * 31,
                base + 31 <= m + 30,
                m * 512 <= usize::MAX,
                m >= 2,
                end == (if base + 31 < m { base + 31 } else { m as int }),
                m == extents@.len(),
                arr@.len() == 32,
                j <= 31,
                forall|t: int| 0 <= t < j ==> #[trigger] arr@[t] == (if base + t < m { extents@[base + t] } else { null_link() }),
                forall|t: int| j <= t < 32 ==> #[trigger] arr@[t] == null_link(),
            decreases 31 - j,
        {
            if base + j < end {
                arr[j] = extents[base + j];
            }
            j = j + 1;
        }
        arr[31] = if i + 1 < needed { LinkPointer { start: lbas[i + 1], size: 0 } } else { LinkPointer { start: 0, size: 0 } };
        proof {
            assert(arr@ =~= chain_block(extents@, ls, i as int));
        }
        out.push((lbas[i], LinkBlock(arr)));
        i = i + 1;
    }
    proof {
        assert(ls =~= Seq::new(needed as nat, |k: int| ls[k]));
    }
    Ok((LinkPointer { start: lbas[0], size: 0 }, out))
}

/// A non-empty list of sectors has at least one extent.
proof fn lemma_coalesce_nonempty(blocks: Seq<u64>)
    requires
        blocks.len() > 0,
    ensures
        coalesce(blocks).len() > 0,
{
}

} // verus!
