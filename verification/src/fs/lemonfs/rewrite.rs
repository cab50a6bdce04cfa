//! The block decisions of rewriting a file's contents: which sectors are kept, which are
//! freed and zeroed, which are newly allocated, and the new link chain.

use vstd::prelude::*;
use super::bitmap::{BitmapAllocator, set_range};
use super::chain::{alloc_singles, chain_outcome, build_file_chain};
use super::disk::{LinkBlock, LinkPointer};
use crate::fs::FSError;

verus! {

/// Sectors a direct pointer covers.
pub open spec fn link_sectors(l: LinkPointer) -> int {
    (l.size + 511) / 512
}

/// The sectors the direct pointers cover, in order.
pub open spec fn flatten(direct: Seq<LinkPointer>) -> Seq<u64>
    decreases direct.len(),
{
    if direct.len() == 0 {
        Seq::empty()
    } else {
        let l = direct.last();
        flatten(direct.drop_last()) + Seq::new(link_sectors(l) as nat, |b: int| (l.start + b) as u64)
    }
}

/// The bits after freeing one block at each of `starts`, in order.
pub open spec fn freed_each(bits: Seq<bool>, base: u64, starts: Seq<u64>) -> Seq<bool>
    decreases starts.len(),
{
    if starts.len() == 0 {
        bits
    } else {
        set_range(freed_each(bits, base, starts.drop_last()), starts.last() - base, 1, false)
    }
}

/// The blocks of a file rewritten with new contents, and what to do on disk.
pub struct RewritePlan {
    /// The new head of the file's link chain.
    pub head: LinkPointer,
    /// The link blocks to write, with their LBAs.
    pub link_blocks: Vec<(u64, LinkBlock)>,
    /// The sectors to zero: the old link blocks, then the data sectors no longer used.
    pub zero_sectors: Vec<u64>,
    /// The data sectors of the new contents, in order.
    pub chain: Vec<u64>,
}

/// Every pointer of `links` covers `per_link(l)` sectors from its start inside the data area of
/// an allocator whose bit 0 stands for `base` and which has `len` bits.
pub open spec fn links_in_area(links: Seq<LinkPointer>, base: u64, len: int, direct: bool) -> bool {
    forall|i: int| 0 <= i < links.len() ==> base <= #[trigger] links[i].start
        && links[i].start - base + (if direct { link_sectors(links[i]) } else { 1 }) <= len
}

/// The starts of `links`.
pub open spec fn starts(links: Seq<LinkPointer>) -> Seq<u64> {
    links.map_values(|l: LinkPointer| l.start)
}

proof fn lemma_flatten_in_area(direct: Seq<LinkPointer>, base: u64, len: int)
    requires
        links_in_area(direct, base, len, true),
        base + len <= u64::MAX,
    ensures
        forall|k: int| 0 <= k < flatten(direct).len() ==> base <= #[trigger] flatten(direct)[k] && flatten(direct)[k] - base < len,
    decreases direct.len(),
{
    if direct.len() > 0 {
        let d = direct.drop_last();
        assert forall|i: int| 0 <= i < d.len() implies #[trigger] d[i] == direct[i] by {}
        lemma_flatten_in_area(d, base, len);
        let l = direct.last();
        assert(base <= direct[direct.len() - 1].start);
        let f = flatten(direct);
        assert forall|k: int| 0 <= k < f.len() implies base <= #[trigger] f[k] && f[k] - base < len by {
            if k >= flatten(d).len() {
                let b = k - flatten(d).len();
                assert(f[k] == (l.start + b) as u64);
            } else {
                assert(f[k] == flatten(d)[k]);
            }
        }
    }
}

/// Frees one block at the start of each of `links`, and lists those starts.
fn free_link_blocks(bitmap: &mut BitmapAllocator, links: &[LinkPointer], zero: &mut Vec<u64>)
    requires
        old(bitmap).wf(),
        links_in_area(links@, old(bitmap).base(), old(bitmap).bits().len() as int, false),
    ensures
        final(bitmap).wf(),
        final(bitmap).base() == old(bitmap).base(),
        final(bitmap).num_blocks() == old(bitmap).num_blocks(),
        final(bitmap).bits() == freed_each(old(bitmap).bits(), old(bitmap).base(), starts(links@)),
        final(zero)@ == old(zero)@ + starts(links@),
{
    let ghost bits0 = bitmap.bits();
    let mut i: usize = 0;
    while i < links.len()
        invariant
            bitmap.wf(),
            bitmap.base() == old(bitmap).base(),
            bitmap.num_blocks() == old(bitmap).num_blocks(),
            bits0 == old(bitmap).bits(),
            bitmap.bits().len() == bits0.len(),
            links_in_area(links@, old(bitmap).base(), bits0.len() as int, false),
            i <= links@.len(),
            bitmap.bits() == freed_each(bits0, old(bitmap).base(), starts(links@.subrange(0, i as int))),
            zero@ == old(zero)@ + starts(links@.subrange(0, i as int)),
        decreases links@.len() - i,
    {
        let l = links[i];
        proof {
            assert(starts(links@.subrange(0, i + 1)).drop_last() =~= starts(links@.subrange(0, i as int)));
            assert(starts(links@.subrange(0, i + 1)).last() == l.start);
            assert(links@[i as int] == l);
        }
        bitmap.free(l.start, 1);
        zero.push(l.start);
        i = i + 1;
        proof {
            assert(zero@ =~= old(zero)@ + starts(links@.subrange(0, i as int)));
        }
    }
    assert(links@.subrange(0, links@.len() as int) =~= links@);
}

/// Frees one block at each of `blocks`, and lists them.
fn free_blocks(bitmap: &mut BitmapAllocator, blocks: &[u64], zero: &mut Vec<u64>)
    requires
        old(bitmap).wf(),
        forall|k: int| 0 <= k < blocks@.len() ==> old(bitmap).base() <= #[trigger] blocks@[k]
            && blocks@[k] - old(bitmap).base() < old(bitmap).bits().len(),
    ensures
        final(bitmap).wf(),
        final(bitmap).base() == old(bitmap).base(),
        final(bitmap).num_blocks() == old(bitmap).num_blocks(),
        final(bitmap).bits() == freed_each(old(bitmap).bits(), old(bitmap).base(), blocks@),
        final(zero)@ == old(zero)@ + blocks@,
{
    let ghost bits0 = bitmap.bits();
    let mut i: usize = 0;
    while i < blocks.len()
        invariant
            bitmap.wf(),
            bitmap.base() == old(bitmap).base(),
            bitmap.num_blocks() == old(bitmap).num_blocks(),
            bits0 == old(bitmap).bits(),
            bitmap.bits().len() == bits0.len(),
            forall|k: int| 0 <= k < blocks@.len() ==> old(bitmap).base() <= #[trigger] blocks@[k]
                && blocks@[k] - old(bitmap).base() < bits0.len(),
            i <= blocks@.len(),
            bitmap.bits() == freed_each(bits0, old(bitmap).base(), blocks@.subrange(0, i as int)),
            zero@ == old(zero)@ + blocks@.subrange(0, i as int),
        decreases blocks@.len() - i,
    {
        let b = blocks[i];
        proof {
            assert(blocks@.subrange(0, i + 1).drop_last() =~= blocks@.subrange(0, i as int));
        }
        bitmap.free(b, 1);
        zero.push(b);
        i = i + 1;
        proof {
            assert(zero@ =~= old(zero)@ + blocks@.subrange(0, i as int));
        }
    }
    assert(blocks@.subrange(0, blocks@.len() as int) =~= blocks@);
}

/// The sectors that the direct pointers `direct` cover, in order.
pub fn sectors_of(direct: &[LinkPointer]) -> (r: Vec<u64>)
    requires
        forall|i: int| 0 <= i < direct@.len() ==> #[trigger] direct@[i].start + link_sectors(direct@[i]) <= u64::MAX,
    ensures
        r@ == flatten(direct@),
{
    let mut blocks: Vec<u64> = Vec::new();
    let mut i: usize = 0;
    while i < direct.len()
        invariant
            i <= direct@.len(),
            forall|i: int| 0 <= i < direct@.len() ==> #[trigger] direct@[i].start + link_sectors(direct@[i]) <= u64::MAX,
            blocks@ == flatten(direct@.subrange(0, i as int)),
        decreases direct@.len() - i,
    {
        let l = direct[i];
        proof {
            assert(direct@.subrange(0, i + 1).drop_last() =~= direct@.subrange(0, i as int));
            assert(direct@[i as int] == l);
        }
        let n = l.size / 512 + if l.size % 512 != 0 { 1u64 } else { 0u64 };
        proof {
            vstd::arithmetic::div_mod::lemma_fundamental_div_mod(l.size as int, 512);
            vstd::arithmetic::div_mod::lemma_fundamental_div_mod_converse(l.size + 511, 512, n as int,
                if l.size % 512 != 0 { l.size % 512 - 1 } else { 511 });
        }
        let ghost before = blocks@;
        let mut b: u64 = 0;
        while b < n
            invariant
                n == link_sectors(l),
                l.start + n <= u64::MAX,
                b <= n,
                blocks@ == before + Seq::new(b as nat, |k: int| (l.start + k) as u64),
            decreases n - b,
        {
            blocks.push(l.start + b);
            b = b + 1;
            assert(blocks@ =~= before + Seq::new(b as nat, |k: int| (l.start + k) as u64));
        }
        i = i + 1;
    }
    assert(direct@.subrange(0, direct@.len() as int) =~= direct@);
    blocks
}

/// The sectors that new contents of `sectors` sectors keep from the old ones `old_blocks`.
pub open spec fn kept_part(old_blocks: Seq<u64>, sectors: int) -> Seq<u64> {
    if sectors < old_blocks.len() { old_blocks.subrange(0, sectors) } else { old_blocks }
}

/// The sectors that new contents of `sectors` sectors no longer use.
pub open spec fn surplus_part(old_blocks: Seq<u64>, sectors: int) -> Seq<u64> {
    if sectors < old_blocks.len() { old_blocks.subrange(sectors, old_blocks.len() as int) } else { Seq::empty() }
}

/// How many sectors must be allocated beyond the old ones.
pub open spec fn extra_needed(old_blocks: Seq<u64>, sectors: int) -> int {
    if sectors > old_blocks.len() { sectors - old_blocks.len() } else { 0 }
}

/// Plans rewriting a file whose chain holds the data pointers `direct` and the link blocks
/// `indirect` with new contents of `sectors` sectors. The old link blocks are freed; the old data
/// sectors are kept in order, as far as the new contents reach; the sectors missing are
/// allocated one at a time (`NoSpace` if one cannot be); the old sectors left over are freed;
/// and the chain of the new sectors is built. Freed sectors are to be zeroed.
pub fn plan_rewrite(bitmap: &mut BitmapAllocator, direct: &[LinkPointer], indirect: &[LinkPointer], sectors: usize)
    -> (r: Result<RewritePlan, FSError>)
    requires
        old(bitmap).wf(),
        sectors > 0,
        sectors * 512 <= usize::MAX,
        old(bitmap).base() + old(bitmap).bits().len() + sectors <= u64::MAX,
        links_in_area(direct@, old(bitmap).base(), old(bitmap).bits().len() as int, true),
        links_in_area(indirect@, old(bitmap).base(), old(bitmap).bits().len() as int, false),
    ensures
        final(bitmap).wf(),
        final(bitmap).base() == old(bitmap).base(),
        final(bitmap).num_blocks() == old(bitmap).num_blocks(),
        ({
            let base = old(bitmap).base();
            let nb = old(bitmap).num_blocks() as int;
            let b1 = freed_each(old(bitmap).bits(), base, starts(indirect@));
            let fl = flatten(direct@);
            let (ps, b2, ok) = alloc_singles(b1, nb, extra_needed(fl, sectors as int) as nat);
            let chain = kept_part(fl, sectors as int) + ps.map_values(|p: int| (base + p) as u64);
            let b3 = freed_each(b2, base, surplus_part(fl, sectors as int));
            &&& !ok ==> r == Err::<RewritePlan, FSError>(FSError::NoSpace) && final(bitmap).bits() == b2
            &&& ok ==> chain_outcome(b3, final(bitmap).bits(), base, nb, chain, match r {
                    Ok(p) => Ok((p.head, p.link_blocks)),
                    Err(e) => Err(e),
                })
            &&& r matches Ok(p) ==> ok && p.chain@ == chain
                && p.zero_sectors@ == starts(indirect@) + surplus_part(fl, sectors as int)
        }),
{
    let ghost base = bitmap.base();
    let ghost nb = bitmap.num_blocks() as int;
    let ghost len = bitmap.bits().len() as int;
    proof { bitmap.lemma_len(); }
    let mut zero: Vec<u64> = Vec::new();
    free_link_blocks(bitmap, indirect, &mut zero);
    proof {
        assert forall|i: int| 0 <= i < direct@.len() implies #[trigger] direct@[i].start + link_sectors(direct@[i]) <= u64::MAX by {
            assert(base <= direct@[i].start);
        }
        lemma_flatten_in_area(direct@, base, len);
    }
    let blocks = sectors_of(direct);
    let ghost fl = blocks@;
    let ghost b1 = bitmap.bits();
    let mut chain: Vec<u64> = Vec::new();
    let mut i: usize = 0;
    let ghost extra = extra_needed(fl, sectors as int) as nat;
    proof {
        bitmap.lemma_len();
        assert(kept_part(fl, 0) =~= Seq::<u64>::empty());
        assert(alloc_singles(b1, nb, 0).0.map_values(|p: int| (base + p) as u64) =~= Seq::<u64>::empty());
        assert(chain@ =~= kept_part(fl, 0) + alloc_singles(b1, nb, 0).0.map_values(|p: int| (base + p) as u64));
    }
    while i < sectors
        invariant
            bitmap.wf(),
            bitmap.base() == base,
            base == old(bitmap).base(),
            bitmap.num_blocks() == nb,
            nb == old(bitmap).num_blocks(),
            bitmap.bits().len() == len,
            fl == blocks@,
            fl == flatten(direct@),
            forall|k: int| 0 <= k < fl.len() ==> base <= #[trigger] fl[k] && fl[k] - base < len,
            extra == extra_needed(fl, sectors as int),
            b1 == freed_each(old(bitmap).bits(), base, starts(indirect@)),
            zero@ == starts(indirect@),
            i <= sectors,
            ({
                let made = if i > fl.len() { (i - fl.len()) as nat } else { 0nat };
                let (ps, b2, ok) = alloc_singles(b1, nb, made);
                &&& ok
                &&& bitmap.bits() == b2
                &&& chain@ == kept_part(fl, i as int) + ps.map_values(|p: int| (base + p) as u64)
                &&& ps.len() == made
            }),
        decreases sectors - i,
    {
        let ghost made = if i > fl.len() { (i - fl.len()) as nat } else { 0nat };
        let ghost prev = alloc_singles(b1, nb, made);
        if i < blocks.len() {
            chain.push(blocks[i]);
            proof {
                assert(kept_part(fl, i + 1) =~= kept_part(fl, i as int).push(fl[i as int]));
                assert(made == 0);
                assert(prev.0.map_values(|p: int| (base + p) as u64) =~= Seq::<u64>::empty());
            }
        } else {
            match bitmap.allocate(1) {
                Some(lba) => {
                    chain.push(lba);
                    proof {
                        let st = super::bitmap::first_fit(prev.1, nb, 1)->0;
                        let next = alloc_singles(b1, nb, made + 1);
                        assert(next.0 == prev.0.push(st));
                        assert(kept_part(fl, i + 1) =~= kept_part(fl, i as int));
                        assert(next.0.map_values(|p: int| (base + p) as u64)
                            =~= prev.0.map_values(|p: int| (base + p) as u64).push(lba));
                    }
                },
                None => {
                    proof {
                        let total = extra;
                        assert(made < total);
                        assert forall|m: nat| made < m <= total implies !(#[trigger] alloc_singles(b1, nb, m)).2
                            && alloc_singles(b1, nb, m).1 == prev.1 by {
                            stuck(b1, nb, made, m);
                        }
                    }
                    return Err(FSError::NoSpace);
                },
            }
        }
        i = i + 1;
    }
    let ghost b2 = bitmap.bits();
    if sectors < blocks.len() {
        let surplus = vstd::slice::slice_subrange(blocks.as_slice(), sectors, blocks.len());
        proof {
            assert(surplus@ =~= surplus_part(fl, sectors as int));
            assert forall|k: int| 0 <= k < surplus@.len() implies base <= #[trigger] surplus@[k]
                && surplus@[k] - base < bitmap.bits().len() by {
                assert(surplus@[k] == fl[sectors + k]);
            }
        }
        free_blocks(bitmap, surplus, &mut zero);
    } else {
        proof {
            assert(surplus_part(fl, sectors as int) =~= Seq::<u64>::empty());
            assert(zero@ =~= zero@ + Seq::<u64>::empty());
        }
    }
    proof {
        assert forall|k: int| 0 <= k < chain@.len() implies #[trigger] chain@[k] + chain@.len() <= u64::MAX by {
            let made = if sectors > fl.len() { (sectors - fl.len()) as nat } else { 0nat };
            let ps = alloc_singles(b1, nb, made).0;
            lemma_alloc_singles_bound(b1, nb, made);
            if k < kept_part(fl, sectors as int).len() {
                assert(chain@[k] == fl[k]);
            } else {
                assert(chain@[k] == (base + ps[k - kept_part(fl, sectors as int).len()]) as u64);
            }
        }
    }
    let built = build_file_chain(bitmap, chain.as_slice());
    match built {
        Ok((head, link_blocks)) => Ok(RewritePlan { head, link_blocks, zero_sectors: zero, chain }),
        Err(e) => Err(e),
    }
}

/// Once an allocation has failed, no later one is made.
proof fn stuck(bits: Seq<bool>, nb: int, i: nat, m: nat)
    requires
        i < m,
        alloc_singles(bits, nb, i).2,
        super::bitmap::first_fit(alloc_singles(bits, nb, i).1, nb, 1) is None,
    ensures
        !alloc_singles(bits, nb, m).2,
        alloc_singles(bits, nb, m).1 == alloc_singles(bits, nb, i).1,
    decreases m - i,
{
    if m > i + 1 {
        stuck(bits, nb, i, (m - 1) as nat);
    }
}

/// Every position taken by the allocations lies within the bits.
proof fn lemma_alloc_singles_bound(bits: Seq<bool>, nb: int, n: nat)
    requires
        bits.len() == nb * 4096,
        nb >= 0,
    ensures
        alloc_singles(bits, nb, n).0.len() <= n,
        alloc_singles(bits, nb, n).1.len() == bits.len(),
        forall|k: int| 0 <= k < alloc_singles(bits, nb, n).0.len() ==>
            0 <= #[trigger] alloc_singles(bits, nb, n).0[k] < bits.len(),
    decreases n,
{
    if n > 0 {
        lemma_alloc_singles_bound(bits, nb, (n - 1) as nat);
        let (ps, b, ok) = alloc_singles(bits, nb, (n - 1) as nat);
        if ok {
            super::bitmap::lemma_first_fit(b, nb, 1);
        }
    }
}

} // verus!
