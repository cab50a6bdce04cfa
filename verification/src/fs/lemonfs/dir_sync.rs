//! Writing a directory back: its entries go 8 to a block along a chain of directory blocks
//! that starts at the directory's head; blocks no longer needed are freed and missing ones
//! allocated.

use vstd::prelude::*;
use super::bitmap::BitmapAllocator;
use super::chain::alloc_singles;
use super::directory::{Directory, spec_dentry};
use super::disk::{DirBlock, DirEntry, LinkPointer, ENTRIES_PER_DIRENTRY};
use super::rewrite::freed_each;
use crate::fs::FSError;

verus! {

/// Directory blocks needed for `n` entries: one per 8, and at least one.
pub open spec fn dir_blocks_needed(n: int) -> int {
    if n == 0 { 1 } else { (n + 7) / 8 }
}

/// An unused directory entry: an empty name, no flags, no link.
pub open spec fn is_zero_dentry(e: DirEntry) -> bool {
    &&& e.name.0@ == Seq::new(36, |i: int| 0u8)
    &&& e.flags.bits == 0
    &&& e.link == (LinkPointer { start: 0, size: 0 })
}

/// Block `i` of the chain of a directory whose entries are `children`: its parent field, the
/// entries `8 i` to `8 i + 7` (unused slots zero) and the pointer to the next block.
pub open spec fn dir_block_is(db: DirBlock, parent: u64, children: Seq<super::directory::DirectoryEntry>, i: int, next: LinkPointer) -> bool {
    &&& db.parent == parent
    &&& db.next == next
    &&& db.padding@ == Seq::new(64, |k: int| 0xBAu8)
    &&& forall|j: int| 0 <= j < 8 ==> if i * 8 + j < children.len() {
        #[trigger] db.entries@[j] == spec_dentry(children[i * 8 + j])
    } else {
        is_zero_dentry(db.entries@[j])
    }
}

/// The blocks of the chain beyond what `needed` blocks use.
pub open spec fn chain_surplus(collected: Seq<u64>, needed: int) -> Seq<u64> {
    if collected.len() > needed { collected.subrange(needed, collected.len() as int) } else { Seq::empty() }
}

/// The existing blocks that a chain of `needed` blocks reuses after its head.
pub open spec fn reused(collected: Seq<u64>, needed: int) -> Seq<u64> {
    if collected.len() <= 1 {
        Seq::empty()
    } else if collected.len() < needed {
        collected.subrange(1, collected.len() as int)
    } else {
        collected.subrange(1, needed)
    }
}

/// The chain of directory `dir` once written back, when its chain held the blocks `collected`
/// and its allocator's bits were `bits`, bit 0 standing for LBA `base`, `nb` bitmap blocks:
/// the LBAs of its blocks, the bits afterwards, and whether every missing block could be
/// allocated (see [`plan_dir_sync`]).
pub open spec fn sync_plan(dir: Directory, collected: Seq<u64>, bits: Seq<bool>, base: u64, nb: int) -> (Seq<u64>, Seq<bool>, bool) {
    let needed = dir_blocks_needed(dir.children@.len() as int);
    let b1 = freed_each(bits, base, chain_surplus(collected, needed));
    let re = reused(collected, needed);
    let (ps, b2, ok) = alloc_singles(b1, nb, (needed - 1 - re.len()) as nat);
    (seq![dir.head.start] + re + ps.map_values(|p: int| (base + p) as u64), b2, ok)
}

/// `w` is the list of blocks to write for `dir` along the chain `chain`: one per block needed,
/// in chain order, each laid out as [`dir_block_is`] says.
pub open spec fn planned_writes(dir: Directory, chain: Seq<u64>, w: Seq<(u64, DirBlock)>) -> bool {
    let needed = dir_blocks_needed(dir.children@.len() as int);
    &&& w.len() == needed
    &&& forall|i: int| 0 <= i < needed ==> (#[trigger] w[i]).0 == chain[i]
        && dir_block_is(w[i].1, dir.parent, dir.children@, i,
            if i + 1 < needed { LinkPointer { start: chain[i + 1], size: 512 } } else { LinkPointer { start: 0, size: 0 } })
}

/// Plans writing `dir` back, its chain now holding the blocks `collected` (the head first). The
/// blocks beyond those its entries need are freed; the chain then starts at the head, reuses the
/// following blocks and allocates the ones missing, one at a time (`NoSpace` if one cannot be).
/// The blocks to write are returned with their LBAs, in chain order.
pub fn plan_dir_sync(dir: &Directory, collected: &[u64], bitmap: &mut BitmapAllocator) -> (r: Result<Vec<(u64, DirBlock)>, FSError>)
    requires
        old(bitmap).wf(),
        dir.children@.len() + 8 <= usize::MAX,
        forall|k: int| 0 <= k < collected@.len() ==> old(bitmap).base() <= #[trigger] collected@[k]
            && collected@[k] - old(bitmap).base() < old(bitmap).bits().len(),
    ensures
        final(bitmap).wf(),
        final(bitmap).base() == old(bitmap).base(),
        final(bitmap).num_blocks() == old(bitmap).num_blocks(),
        ({
            let n = dir.children@.len() as int;
            let needed = dir_blocks_needed(n);
            let base = old(bitmap).base();
            let b1 = freed_each(old(bitmap).bits(), base, chain_surplus(collected@, needed));
            let re = reused(collected@, needed);
            let (ps, b2, ok) = alloc_singles(b1, old(bitmap).num_blocks() as int, (needed - 1 - re.len()) as nat);
            let chain = seq![dir.head.start] + re + ps.map_values(|p: int| (base + p) as u64);
            &&& final(bitmap).bits() == b2
            &&& !ok ==> r == Err::<Vec<(u64, DirBlock)>, FSError>(FSError::NoSpace)
            &&& ok ==> (r matches Ok(w) && w@.len() == needed
                && forall|i: int| 0 <= i < needed ==> (#[trigger] w@[i]).0 == chain[i]
                    && dir_block_is(w@[i].1, dir.parent, dir.children@, i,
                        if i + 1 < needed { LinkPointer { start: chain[i + 1], size: 512 } } else { LinkPointer { start: 0, size: 0 } }))
        }),
{
    let n = dir.children.len();
    let needed = if n == 0 { 1 } else { n / ENTRIES_PER_DIRENTRY + if n % ENTRIES_PER_DIRENTRY != 0 { 1usize } else { 0usize } };
    proof {
        if n > 0 {
            vstd::arithmetic::div_mod::lemma_fundamental_div_mod(n as int, 8);
            vstd::arithmetic::div_mod::lemma_fundamental_div_mod_converse(n + 7, 8, needed as int,
                if n % 8 != 0 { n % 8 - 1 } else { 7 });
        }
        assert(needed >= 1);
        assert(needed * 8 >= n) by (nonlinear_arith)
            requires needed == (if n == 0 { 1 } else { (n + 7) / 8 }), n >= 0;
        assert(needed * 8 <= n + 8) by (nonlinear_arith)
            requires needed == (if n == 0 { 1 } else { (n + 7) / 8 }), n >= 0;
    }
    let ghost base = bitmap.base();
    let ghost nb = bitmap.num_blocks() as int;
    let ghost cl = collected@;
    let mut dummy: Vec<u64> = Vec::new();
    if collected.len() > needed {
        let surplus = vstd::slice::slice_subrange(collected, needed, collected.len());
        proof {
            assert(surplus@ =~= chain_surplus(cl, needed as int));
            assert forall|k: int| 0 <= k < surplus@.len() implies base <= #[trigger] surplus@[k]
                && surplus@[k] - base < bitmap.bits().len() by {
                assert(surplus@[k] == cl[needed + k]);
            }
        }
        free_each_block(bitmap, surplus);
    } else {
        proof { assert(chain_surplus(cl, needed as int) =~= Seq::<u64>::empty()); }
    }
    let ghost b1 = bitmap.bits();
    let ghost re = reused(cl, needed as int);
    let ghost extra = (needed - 1 - re.len()) as nat;
    let mut chain: Vec<u64> = Vec::new();
    chain.push(dir.head.start);
    let mut i: usize = 1;
    proof {
        assert(alloc_singles(b1, nb, 0).0.map_values(|p: int| (base + p) as u64) =~= Seq::<u64>::empty());
        assert(reused(cl, 1) =~= Seq::<u64>::empty());
        assert(chain@ =~= seq![dir.head.start] + reused(cl, 1) + Seq::<u64>::empty());
    }
    while i < needed
        invariant
            bitmap.wf(),
            bitmap.base() == base,
            base == old(bitmap).base(),
            bitmap.num_blocks() == nb,
            nb == old(bitmap).num_blocks(),
            cl == collected@,
            1 <= i <= needed,
            re == reused(cl, needed as int),
            extra == needed - 1 - re.len(),
            n == dir.children@.len(),
            needed == dir_blocks_needed(n as int),
            b1 == freed_each(old(bitmap).bits(), base, chain_surplus(cl, needed as int)),
            ({
                let made = if i > cl.len() && cl.len() > 0 { (i - cl.len()) as nat } else if cl.len() == 0 { (i - 1) as nat } else { 0nat };
                let (ps, b2, ok) = alloc_singles(b1, nb, made);
                &&& ok
                &&& bitmap.bits() == b2
                &&& ps.len() == made
                &&& chain@ == seq![dir.head.start] + reused(cl, i as int) + ps.map_values(|p: int| (base + p) as u64)
                &&& made <= extra
            }),
        decreases needed - i,
    {
        let ghost made = if i > cl.len() && cl.len() > 0 { (i - cl.len()) as nat } else if cl.len() == 0 { (i - 1) as nat } else { 0nat };
        let ghost prev = alloc_singles(b1, nb, made);
        if i < collected.len() {
            chain.push(collected[i]);
            proof {
                assert(made == 0);
                assert(reused(cl, i + 1) =~= reused(cl, i as int).push(cl[i as int]));
                assert(prev.0.map_values(|p: int| (base + p) as u64) =~= Seq::<u64>::empty());
            }
        } else {
            match bitmap.allocate(1) {
                Some(lba) => {
                    chain.push(lba);
                    proof {
                        let st = super::bitmap::first_fit(prev.1, nb, 1)->0;
                        let next = alloc_singles(b1, nb, made + 1);
                        assert(next.0 == prev.0.push(st));
                        assert(reused(cl, i + 1) =~= reused(cl, i as int));
                        assert(next.0.map_values(|p: int| (base + p) as u64)
                            =~= prev.0.map_values(|p: int| (base + p) as u64).push(lba));
                    }
                },
                None => {
                    proof {
                        assert(reused(cl, needed as int) =~= reused(cl, i as int));
                        assert forall|m: nat| made < m <= extra implies !(#[trigger] alloc_singles(b1, nb, m)).2
                            && alloc_singles(b1, nb, m).1 == prev.1 by {
                            stuck_dir(b1, nb, made, m);
                        }
                        assert(made < extra);
                        assert(!alloc_singles(b1, nb, extra).2);
                    }
                    return Err(FSError::NoSpace);
                },
            }
        }
        i = i + 1;
    }
    proof {
        assert(reused(cl, needed as int) == re);
    }
    let ghost ch = chain@;
    let mut out: Vec<(u64, DirBlock)> = Vec::new();
    let mut k: usize = 0;
    while k < needed
        invariant
            needed * 8 >= n,
            needed * 8 <= n + 8,
            n == dir.children@.len(),
            n + 8 <= usize::MAX,
            needed >= 1,
            chain@ == ch,
            ch.len() == needed,
            k <= needed,
            out@.len() == k,
            forall|t: int| 0 <= t < k ==> (#[trigger] out@[t]).0 == ch[t]
                && dir_block_is(out@[t].1, dir.parent, dir.children@, t,
                    if t + 1 < needed { LinkPointer { start: ch[t + 1], size: 512 } } else { LinkPointer { start: 0, size: 0 } }),
        decreases needed - k,
    {
        assert(k * 8 + 8 <= needed * 8) by (nonlinear_arith) requires k < needed;
        let mut buf = [DirEntry::zero(); ENTRIES_PER_DIRENTRY];
        let mut j: usize = 0;
        while j < ENTRIES_PER_DIRENTRY
            invariant
                k < needed,
                k * 8 + 8 <= n + 8,
                n == dir.children@.len(),
                n + 8 <= usize::MAX,
                buf@.len() == 8,
                j <= 8,
                forall|t: int| 0 <= t < j ==> if k * 8 + t < n {
                    #[trigger] buf@[t] == spec_dentry(dir.children@[k * 8 + t])
                } else {
                    is_zero_dentry(buf@[t])
                },
                forall|t: int| j <= t < 8 ==> is_zero_dentry(#[trigger] buf@[t]),
            decreases 8 - j,
        {
            let idx = k * ENTRIES_PER_DIRENTRY + j;
            if idx < n {
                let e = dir.children[idx].to_dentry();
                buf[j] = e;
            }
            j = j + 1;
        }
        let next = if k + 1 < needed { LinkPointer { start: chain[k + 1], size: 512 } } else { LinkPointer { start: 0, size: 0 } };
        let block = DirBlock::new(dir.parent, &buf, next);
        out.push((chain[k], block));
        k = k + 1;
    }
    Ok(out)
}

/// Frees one block at each of `blocks`.
fn free_each_block(bitmap: &mut BitmapAllocator, blocks: &[u64])
    requires
        old(bitmap).wf(),
        forall|k: int| 0 <= k < blocks@.len() ==> old(bitmap).base() <= #[trigger] blocks@[k]
            && blocks@[k] - old(bitmap).base() < old(bitmap).bits().len(),
    ensures
        final(bitmap).wf(),
        final(bitmap).base() == old(bitmap).base(),
        final(bitmap).num_blocks() == old(bitmap).num_blocks(),
        final(bitmap).bits() == freed_each(old(bitmap).bits(), old(bitmap).base(), blocks@),
{
    let ghost bits0 = bitmap.bits();
    let mut i: usize = 0;
    while i < blocks.len()
        invariant
            bitmap.wf(),
            bitmap.base() == old(bitmap).base(),
            bitmap.num_blocks() == old(bitmap).num_blocks(),
            bits0 == old(bitmap).bits(),
            bitmap.bits().len() == bits0.len(),
            forall|k: int| 0 <= k < blocks@.len() ==> old(bitmap).base() <= #[trigger] blocks@[k]
                && blocks@[k] - old(bitmap).base() < bits0.len(),
            i <= blocks@.len(),
            bitmap.bits() == freed_each(bits0, old(bitmap).base(), blocks@.subrange(0, i as int)),
        decreases blocks@.len() - i,
    {
        proof {
            assert(blocks@.subrange(0, i + 1).drop_last() =~= blocks@.subrange(0, i as int));
        }
        bitmap.free(blocks[i], 1);
        i = i + 1;
    }
    assert(blocks@.subrange(0, blocks@.len() as int) =~= blocks@);
}

/// Once an allocation has failed, no later one is made.
proof fn stuck_dir(bits: Seq<bool>, nb: int, i: nat, m: nat)
    requires
        i < m,
        alloc_singles(bits, nb, i).2,
        super::bitmap::first_fit(alloc_singles(bits, nb, i).1, nb, 1) is None,
    ensures
        !alloc_singles(bits, nb, m).2,
        alloc_singles(bits, nb, m).1 == alloc_singles(bits, nb, i).1,
    decreases m - i,
{
    if m > i + 1 {
        stuck_dir(bits, nb, i, (m - 1) as nat);
    }
}

} // verus!
