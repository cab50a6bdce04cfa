//! Link chains: the extents of a file, or the directory sectors of a directory, past the first.
//! A link with `ptr == 0` is none, one with `size != 0` is an extent, and one with `size == 0`
//! points to a link sector of 32 further links.

use vstd::prelude::*;
use crate::fs::hashtable::drive::StorageDrive;
use super::ImageError;
use super::io::{read_lba, write_lba};
use super::disk::{LinkEntry, SuperBlock, links_of, link_at, get_link, put_link, splice, LINKS_PER_BLOCK};
use super::space::{free_blocks, alloc_blocks, layout_ok, image_bits, only_bitmap_changed, bits_changed, in_bitmap};
use crate::fs::hashtable::headers::{div_ceil, u64_div_ceil};
use crate::fs::lemonfs::bitmap::set_range;

verus! {

/// The links visited by walking a stack of links: the last one is taken first; a link that
/// is none is skipped; an extent is visited; a link sector is visited and its 32 links are
/// pushed, in slot order, so slot 31 is taken next. At most `fuel` link sectors are read;
/// more, or one past the end of the drive, is `None`.
pub open spec fn walk(sectors: Seq<[u8; 512]>, stack: Seq<LinkEntry>, fuel: nat) -> Option<Seq<LinkEntry>>
    decreases fuel, stack.len(),
{
    if stack.len() == 0 {
        Some(Seq::empty())
    } else {
        let e = stack.last();
        let rest = stack.drop_last();
        if e.ptr == 0 {
            walk(sectors, rest, fuel)
        } else if e.size != 0 {
            match walk(sectors, rest, fuel) {
                Some(v) => Some(seq![e] + v),
                None => None,
            }
        } else if fuel == 0 || e.ptr >= sectors.len() {
            None
        } else {
            match walk(sectors, rest + links_of(sectors[e.ptr as int]@), (fuel - 1) as nat) {
                Some(v) => Some(seq![e] + v),
                None => None,
            }
        }
    }
}

/// The links visited from `link` on a drive: at most as many link sectors as the drive has.
pub open spec fn chain(sectors: Seq<[u8; 512]>, link: LinkEntry) -> Option<Seq<LinkEntry>> {
    walk(sectors, seq![link], sectors.len())
}

/// `a` before what `o` holds.
pub open spec fn prefixed(a: Seq<LinkEntry>, o: Option<Seq<LinkEntry>>) -> Option<Seq<LinkEntry>> {
    match o {
        Some(v) => Some(a + v),
        None => None,
    }
}

/// The 32 links of link sector `lba`, in slot order.
pub fn read_links<D: StorageDrive>(drive: &mut D, lba: u64) -> (r: Result<Vec<LinkEntry>, ImageError>)
    ensures
        final(drive).sectors() == old(drive).sectors(),
        r matches Ok(v) ==> lba < old(drive).sectors().len() && v@ == links_of(old(drive).sectors()[lba as int]@),
        r matches Err(e) ==> e == ImageError::Io,
        lba >= old(drive).sectors().len() ==> r is Err,
{
    let block = read_lba(drive, lba)?;
    let mut v: Vec<LinkEntry> = Vec::new();
    let mut i: usize = 0;
    while i < LINKS_PER_BLOCK
        invariant
            i <= LINKS_PER_BLOCK,
            v@ == links_of(block@).subrange(0, i as int),
        decreases LINKS_PER_BLOCK - i,
    {
        v.push(get_link(&block, i));
        i = i + 1;
        assert(v@ =~= links_of(block@).subrange(0, i as int));
    }
    assert(v@ =~= links_of(block@));
    Ok(v)
}

/// Walks the chain from `link` (see [`chain`]) and returns the links it visits: extents and
/// link sectors, in the order taken. A chain that reads more link sectors than the drive has
/// is `Corrupt`.
pub fn walk_chain<D: StorageDrive>(drive: &mut D, link: LinkEntry) -> (r: Result<Vec<LinkEntry>, ImageError>)
    ensures
        final(drive).sectors() == old(drive).sectors(),
        r matches Ok(v) ==> chain(old(drive).sectors(), link) == Some(v@),
        r matches Err(e) ==> e == ImageError::Io || (e == ImageError::Corrupt && chain(old(drive).sectors(), link) is None),
        chain(old(drive).sectors(), link) is None ==> r is Err,
        link.ptr == 0 ==> r is Ok,
{
    let ghost s = drive.sectors();
    let mut fuel: u64 = drive.sector_count();
    let mut stack: Vec<LinkEntry> = Vec::new();
    stack.push(link);
    let mut out: Vec<LinkEntry> = Vec::new();
    assert(stack@ =~= seq![link]);
    assert(out@ + Seq::<LinkEntry>::empty() =~= out@);
    while stack.len() > 0
        invariant
            drive.sectors() == s,
            s == old(drive).sectors(),
            chain(s, link) == prefixed(out@, walk(s, stack@, fuel as nat)),
            link.ptr == 0 ==> stack@.len() <= 1 && (stack@.len() == 1 ==> stack@[0] == link),
        decreases fuel, stack@.len(),
    {
        let ghost st = stack@;
        let e = stack.pop().unwrap();
        assert(e == st.last() && stack@ == st.drop_last());
        if !e.is_valid() {
        } else if e.is_direct() {
            proof {
                match walk(s, stack@, fuel as nat) {
                    Some(v) => { assert(out@.push(e) + v =~= out@ + (seq![e] + v)); }
                    None => {}
                }
            }
            out.push(e);
        } else {
            if fuel == 0 {
                return Err(ImageError::Corrupt);
            }
            let links = read_links(drive, e.ptr)?;
            let ghost rest = stack@;
            let mut i: usize = 0;
            while i < links.len()
                invariant
                    links@.len() == 32,
                    i <= 32,
                    stack@ == rest + links@.subrange(0, i as int),
                decreases 32 - i,
            {
                stack.push(links[i]);
                i = i + 1;
                assert(stack@ =~= rest + links@.subrange(0, i as int));
            }
            assert(links@.subrange(0, 32) =~= links@);
            proof {
                match walk(s, stack@, (fuel - 1) as nat) {
                    Some(v) => { assert(out@.push(e) + v =~= out@ + (seq![e] + v)); }
                    None => {}
                }
            }
            out.push(e);
            fuel = fuel - 1;
        }
    }
    proof {
        assert(out@ + Seq::<LinkEntry>::empty() =~= out@);
    }
    Ok(out)
}

/// The sum of the sizes of `v` (a link sector counts 0).
pub open spec fn sum_sizes(v: Seq<LinkEntry>) -> int
    decreases v.len(),
{
    if v.len() == 0 { 0 } else { sum_sizes(v.drop_last()) + v.last().size }
}

/// The size of a file whose first extent holds `file_size` bytes and whose further extents
/// hang off `link`. A chain whose sizes overflow 64 bits is `Corrupt`.
pub fn total_file_size<D: StorageDrive>(drive: &mut D, start_block: u64, file_size: u64, link: &LinkEntry) -> (r: Result<u64, ImageError>)
    ensures
        final(drive).sectors() == old(drive).sectors(),
        r matches Ok(t) ==> (chain(old(drive).sectors(), *link) matches Some(v) && t == file_size + sum_sizes(v)),
        chain(old(drive).sectors(), *link) is None ==> r is Err,
        (chain(old(drive).sectors(), *link) matches Some(v) && file_size + sum_sizes(v) > u64::MAX) ==> r is Err,
        r matches Err(e) ==> e == ImageError::Io || e == ImageError::Corrupt,
{
    let v = walk_chain(drive, *link)?;
    let mut total: u64 = file_size;
    let mut i: usize = 0;
    while i < v.len()
        invariant
            drive.sectors() == old(drive).sectors(),
            i <= v@.len(),
            total == file_size + sum_sizes(v@.subrange(0, i as int)),
        decreases v@.len() - i,
    {
        assert(v@.subrange(0, i + 1).drop_last() =~= v@.subrange(0, i as int));
        proof { lemma_sum_sizes_prefix(v@, i + 1); }
        match total.checked_add(v[i].size) {
            Some(t) => { total = t; }
            None => {
                return Err(ImageError::Corrupt);
            }
        }
        i = i + 1;
    }
    assert(v@.subrange(0, v@.len() as int) =~= v@);
    Ok(total)
}

/// Sums over longer prefixes are no smaller.
proof fn lemma_sum_sizes_prefix(v: Seq<LinkEntry>, k: int)
    requires
        0 <= k <= v.len(),
    ensures
        sum_sizes(v.subrange(0, k)) <= sum_sizes(v),
    decreases v.len() - k,
{
    if k < v.len() {
        lemma_sum_sizes_prefix(v, k + 1);
        assert(v.subrange(0, k + 1).drop_last() =~= v.subrange(0, k));
    } else {
        assert(v.subrange(0, k) =~= v);
    }
}

/// The `size` bytes stored from sector `lba` on.
pub open spec fn extent_data(sectors: Seq<[u8; 512]>, lba: int, size: int) -> Seq<u8> {
    Seq::new(size as nat, |k: int| sectors[lba + k / 512]@[k % 512])
}

/// The bytes of the extents of `v`, one after the other (a link sector holds none).
pub open spec fn chain_data(sectors: Seq<[u8; 512]>, v: Seq<LinkEntry>) -> Seq<u8>
    decreases v.len(),
{
    if v.len() == 0 {
        Seq::empty()
    } else {
        chain_data(sectors, v.drop_last()) + (if v.last().size != 0 { extent_data(sectors, v.last().ptr as int, v.last().size as int) } else { Seq::empty() })
    }
}

/// Appends the `size` bytes stored from sector `lba` on to `out`.
fn append_extent<D: StorageDrive>(drive: &mut D, lba: u64, size: u64, out: &mut Vec<u8>) -> (r: Result<(), ImageError>)
    ensures
        final(drive).sectors() == old(drive).sectors(),
        r is Ok ==> final(out)@ == old(out)@ + extent_data(old(drive).sectors(), lba as int, size as int),
        r matches Err(e) ==> e == ImageError::Io,
{
    let ghost s = drive.sectors();
    let ghost out0 = out@;
    let lbas = u64_div_ceil(size, 512);
    let mut i: u64 = 0;
    assert(extent_data(s, lba as int, 0) =~= Seq::<u8>::empty());
    assert(out0 + Seq::<u8>::empty() =~= out0);
    while i < lbas
        invariant
            drive.sectors() == s,
            s == old(drive).sectors(),
            lbas == div_ceil(size as int, 512),
            i <= lbas,
            i * 512 < size + 512,
            out@ == out0 + extent_data(s, lba as int, if i * 512 < size { i * 512 } else { size as int }),
        decreases lbas - i,
    {
        proof {
            vstd::arithmetic::div_mod::lemma_fundamental_div_mod(size + 511, 512);
            assert(i * 512 < size);
        }
        if lba > u64::MAX - i {
            return Err(ImageError::Io);
        }
        let block = read_lba(drive, lba + i)?;
        let start: u64 = i * 512;
        let end: u64 = if size - start < 512 { size } else { start + 512 };
        let n: usize = (end - start) as usize;
        let mut j: usize = 0;
        while j < n
            invariant
                n <= 512,
                start == i * 512,
                start + n <= size,
                j <= n,
                block == s[lba + i],
                out@ == out0 + extent_data(s, lba as int, start + j),
            decreases n - j,
        {
            proof {
                vstd::arithmetic::div_mod::lemma_fundamental_div_mod_converse(start + j, 512, i as int, j as int);
                assert(out@.push(block@[j as int]) =~= out0 + extent_data(s, lba as int, start + j + 1));
            }
            out.push(block[j]);
            j = j + 1;
        }
        i = i + 1;
        proof {
            assert(i * 512 < size + 512) by (nonlinear_arith)
                requires i * 512 == start + 512, start < size;
        }
    }
    proof {
        vstd::arithmetic::div_mod::lemma_fundamental_div_mod(size + 511, 512);
        assert(i * 512 >= size) by (nonlinear_arith)
            requires i == (size + 511) / 512, (size + 511) == 512 * ((size + 511) / 512) + (size + 511) % 512,
                0 <= (size + 511) % 512 < 512;
    }
    Ok(())
}

/// Appends to `out` the `base_size` bytes of the first extent, from sector `base_lba` on,
/// then the extents of the chain from `link`, in the order the walk visits them.
pub fn read_link_data<D: StorageDrive>(drive: &mut D, link: &LinkEntry, base_lba: u64, base_size: u64, out: &mut Vec<u8>) -> (r: Result<(), ImageError>)
    ensures
        final(drive).sectors() == old(drive).sectors(),
        r is Ok ==> (chain(old(drive).sectors(), *link) matches Some(v)
            && final(out)@ == old(out)@ + extent_data(old(drive).sectors(), base_lba as int, base_size as int)
                + chain_data(old(drive).sectors(), v)),
        r matches Err(e) ==> e == ImageError::Io || e == ImageError::Corrupt,
{
    let ghost s = drive.sectors();
    let ghost out0 = out@;
    if base_size > 0 {
        append_extent(drive, base_lba, base_size, out)?;
    } else {
        assert(extent_data(s, base_lba as int, 0) =~= Seq::<u8>::empty());
        assert(out@ + Seq::<u8>::empty() =~= out@);
    }
    let ghost out1 = out@;
    let v = walk_chain(drive, *link)?;
    let mut i: usize = 0;
    assert(out1 + chain_data(s, v@.subrange(0, 0)) =~= out1);
    while i < v.len()
        invariant
            drive.sectors() == s,
            s == old(drive).sectors(),
            i <= v@.len(),
            out@ == out1 + chain_data(s, v@.subrange(0, i as int)),
        decreases v@.len() - i,
    {
        let e = v[i];
        assert(v@.subrange(0, i + 1).drop_last() =~= v@.subrange(0, i as int));
        if e.is_direct() {
            append_extent(drive, e.ptr, e.size, out)?;
        }
        i = i + 1;
        proof {
            let w = v@.subrange(0, i as int);
            assert(w.last() == e);
            if e.size == 0 {
                assert(chain_data(s, w) =~= chain_data(s, w.drop_last()));
            }
        }
    }
    assert(v@.subrange(0, v@.len() as int) =~= v@);
    Ok(())
}

/// The data sectors an extent occupies, or 1 for a link sector.
pub open spec fn link_span(e: LinkEntry) -> int {
    if e.size != 0 { div_ceil(e.size as int, 512) } else { 1 }
}

/// The bitmap `bits` with the sectors of each link of `v` marked free, first to last.
pub open spec fn freed(bits: Seq<bool>, v: Seq<LinkEntry>, data_start: int) -> Seq<bool>
    decreases v.len(),
{
    if v.len() == 0 {
        bits
    } else {
        set_range(freed(bits, v.drop_last(), data_start), v.last().ptr - data_start, link_span(v.last()), false)
    }
}

/// Marks free the sectors of every extent and every link sector of the chain from `link`.
/// An extent or link sector outside the area the bitmap covers is `Corrupt`.
pub fn free_link_chain<D: StorageDrive>(drive: &mut D, sb: &SuperBlock, link: LinkEntry) -> (r: Result<(), ImageError>)
    requires
        layout_ok(*sb),
    ensures
        only_bitmap_changed(old(drive).sectors(), final(drive).sectors(), sb.spec_bitmap_start(), sb.bitmap_size as int),
        r is Ok ==> (chain(old(drive).sectors(), link) matches Some(v)
            && image_bits(final(drive).sectors(), sb.spec_bitmap_start(), sb.bitmap_size as int)
                == freed(image_bits(old(drive).sectors(), sb.spec_bitmap_start(), sb.bitmap_size as int), v, sb.spec_data_start())),
        chain(old(drive).sectors(), link) is None ==> r is Err,
        r matches Err(e) ==> e == ImageError::Io || e == ImageError::Corrupt,
        link.ptr == 0 ==> r is Ok,
{
    let ghost s0 = drive.sectors();
    let ghost bs = sb.spec_bitmap_start();
    let ghost nb = sb.bitmap_size as int;
    let v = walk_chain(drive, link)?;
    assert(link.ptr == 0 ==> v@.len() == 0) by {
        if link.ptr == 0 {
            let st = seq![link];
            assert(st.drop_last() =~= Seq::<LinkEntry>::empty());
            reveal_with_fuel(walk, 2);
        }
    }
    let mut i: usize = 0;
    while i < v.len()
        invariant
            link.ptr == 0 ==> v@.len() == 0,
            layout_ok(*sb),
            bs == sb.spec_bitmap_start(),
            nb == sb.bitmap_size,
            i <= v@.len(),
            only_bitmap_changed(s0, drive.sectors(), bs, nb),
            image_bits(drive.sectors(), bs, nb) == freed(image_bits(s0, bs, nb), v@.subrange(0, i as int), sb.spec_data_start()),
            s0 == old(drive).sectors(),
        decreases v@.len() - i,
    {
        let e = v[i];
        let ghost before = drive.sectors();
        let count: u64 = if e.is_direct() { u64_div_ceil(e.size, 512) } else { 1 };
        proof {
            if e.size != 0 {
                assert(count >= 1) by {
                    vstd::arithmetic::div_mod::lemma_fundamental_div_mod(e.size + 511, 512);
                }
            }
        }
        free_blocks(drive, sb, e.ptr, count)?;
        proof {
            let w = v@.subrange(0, i + 1);
            assert(w.drop_last() =~= v@.subrange(0, i as int));
            assert(w.last() == e);
            assert forall|l: int| 0 <= l < s0.len() && !(bs <= l < bs + nb) implies #[trigger] drive.sectors()[l] == s0[l] by {
                assert(drive.sectors()[l] == before[l]);
            }
        }
        i = i + 1;
    }
    assert(v@.subrange(0, v@.len() as int) =~= v@);
    Ok(())
}

/// Slot `k` is the first empty slot (one that links nowhere) of link sector `b`.
pub open spec fn first_empty_link(b: Seq<u8>, k: int) -> bool {
    &&& 0 <= k < 32
    &&& links_of(b)[k].ptr == 0
    &&& forall|j: int| 0 <= j < k ==> #[trigger] links_of(b)[j].ptr != 0
}

/// The link sector where appending to a chain stops, starting from link sector `lba`: the
/// first sector with an empty slot, following each full sector's last slot while it links to
/// another link sector; or the full sector whose last slot holds an extent. `None` when the
/// sectors run past the drive, or number more than `fuel`.
pub open spec fn append_target(s: Seq<[u8; 512]>, lba: int, fuel: nat) -> Option<int>
    decreases fuel,
{
    if fuel == 0 || !(0 <= lba < s.len()) {
        None
    } else if exists|k: int| 0 <= k < 32 && #[trigger] links_of(s[lba]@)[k].ptr == 0 {
        Some(lba)
    } else if links_of(s[lba]@)[31].size != 0 {
        Some(lba)
    } else {
        append_target(s, links_of(s[lba]@)[31].ptr as int, (fuel - 1) as nat)
    }
}

/// Appends `append` to the chain in `link`: a chain that is none becomes `append`; otherwise
/// the first free slot of the chain's link sectors, following each full sector's last slot,
/// takes it; a full sector whose last slot is an extent moves that extent and `append` to a
/// newly allocated link sector, which its last slot then points to. A chain that follows
/// more link sectors than the drive has, or a newly allocated sector that is the full link
/// sector itself, is `Corrupt`.
pub fn extend_link<D: StorageDrive>(drive: &mut D, sb: &SuperBlock, link: &mut LinkEntry, append: LinkEntry) -> (r: Result<(), ImageError>)
    requires
        layout_ok(*sb),
    ensures
        old(link).ptr == 0 ==> r is Ok && *final(link) == append && final(drive).sectors() == old(drive).sectors(),
        old(link).ptr != 0 ==> *final(link) == *old(link),
        final(drive).sectors().len() == old(drive).sectors().len(),
        r is Ok && old(link).ptr != 0 ==> exists|lba: int, k: int| 0 <= lba < final(drive).sectors().len() && 0 <= k < 32
            && #[trigger] links_of(final(drive).sectors()[lba]@)[k] == append,
        r is Ok && old(link).ptr != 0 ==> (append_target(old(drive).sectors(), old(link).ptr as int, old(drive).sectors().len()) matches Some(t)
            && ((exists|k: int| #[trigger] first_empty_link(old(drive).sectors()[t]@, k)
                    && super::table::sector_spliced(old(drive).sectors(), final(drive).sectors(), t, k * 16, append.image()))
                || ((forall|k: int| 0 <= k < 32 ==> #[trigger] links_of(old(drive).sectors()[t]@)[k].ptr != 0)
                    && links_of(old(drive).sectors()[t]@)[31].size != 0
                    && exists|nl: int| 0 <= nl < final(drive).sectors().len() && nl != t
                        && #[trigger] links_of(final(drive).sectors()[nl]@)[0] == links_of(old(drive).sectors()[t]@)[31]
                        && links_of(final(drive).sectors()[nl]@)[1] == append
                        && links_of(final(drive).sectors()[t]@)[31] == (LinkEntry { ptr: nl as u64, size: 0 })))),
        r matches Err(e) ==> e == ImageError::Io || e == ImageError::Corrupt || e == ImageError::DiskFull,
{
    if !link.is_valid() {
        *link = append;
        return Ok(());
    }
    let mut lba = link.ptr;
    let mut fuel: u64 = drive.sector_count();
    let ghost len0 = drive.sectors().len();
    let ghost s0 = drive.sectors();
    while fuel > 0
        invariant
            layout_ok(*sb),
            drive.sectors() == s0,
            s0 == old(drive).sectors(),
            drive.sectors().len() == len0,
            len0 == old(drive).sectors().len(),
            *link == *old(link),
            old(link).ptr != 0,
            append_target(s0, old(link).ptr as int, len0) == append_target(s0, lba as int, fuel as nat),
        decreases fuel,
    {
        let mut block = read_lba(drive, lba)?;
        let ghost blk = block@;
        let mut i: usize = 0;
        while i < LINKS_PER_BLOCK
            invariant
                i <= LINKS_PER_BLOCK,
                block@.len() == 512,
                block@ == blk,
                blk == s0[lba as int]@,
                lba < s0.len(),
                layout_ok(*sb),
                drive.sectors() == s0,
                s0 == old(drive).sectors(),
                drive.sectors().len() == len0,
                len0 == old(drive).sectors().len(),
                *link == *old(link),
                old(link).ptr != 0,
                forall|j: int| 0 <= j < i ==> #[trigger] links_of(blk)[j].ptr != 0,
                fuel > 0,
                append_target(s0, old(link).ptr as int, len0) == append_target(s0, lba as int, fuel as nat),
            decreases LINKS_PER_BLOCK - i,
        {
            let e = get_link(&block, i);
            if !e.is_valid() {
                let ghost b0 = block@;
                put_link(&mut block, i, &append);
                proof {
                    lemma_link_written(b0, block@, i as int, append);
                    assert(links_of(blk)[i as int].ptr == 0);
                    assert(links_of(s0[lba as int]@)[i as int].ptr == 0);
                    assert(first_empty_link(s0[lba as int]@, i as int));
                    assert(append_target(s0, lba as int, fuel as nat) == Some(lba as int));
                }
                let ghost b = block;
                let r = write_lba(drive, lba, &block);
                proof {
                    if r is Ok {
                        assert(drive.sectors()[lba as int] == b);
                        assert(super::table::sector_spliced(s0, drive.sectors(), lba as int, i * 16, append.image()));
                    }
                }
                return r;
            }
            i = i + 1;
        }
        let last = get_link(&block, LINKS_PER_BLOCK - 1);
        proof {
            assert(!(exists|k: int| 0 <= k < 32 && #[trigger] links_of(s0[lba as int]@)[k].ptr == 0));
            assert(last == links_of(s0[lba as int]@)[31]);
        }
        if last.is_direct() {
            proof {
                assert(append_target(s0, lba as int, fuel as nat) == Some(lba as int));
            }
            let new_lba = alloc_blocks(drive, sb, 1)?;
            if new_lba == lba {
                return Err(ImageError::Corrupt);
            }
            let mut nb = [0u8; 512];
            proof { assert(nb@ =~= seq_zero_sector()); }
            put_link(&mut nb, 0, &last);
            let ghost nb0 = nb@;
            proof { lemma_link_written(seq_zero_sector(), nb0, 0, last); }
            put_link(&mut nb, 1, &append);
            proof {
                lemma_link_written(nb0, nb@, 1, append);
                lemma_link_others(nb0, nb@, 1, 0, append);
            }
            let wr = write_lba(drive, new_lba, &nb);
            match wr {
                Ok(()) => {}
                Err(e) => { return Err(e); }
            }
            let ghost after_new = drive.sectors();
            let ghost bb = block@;
            put_link(&mut block, LINKS_PER_BLOCK - 1, &LinkEntry { ptr: new_lba, size: 0 });
            proof { lemma_link_written(bb, block@, 31, LinkEntry { ptr: new_lba, size: 0 }); }
            let r = write_lba(drive, lba, &block);
            proof {
                if r is Ok {
                    assert(drive.sectors()[new_lba as int] == after_new[new_lba as int]);
                    assert(links_of(drive.sectors()[new_lba as int]@)[1] == append);
                    assert(links_of(drive.sectors()[new_lba as int]@)[0] == links_of(s0[lba as int]@)[31]);
                }
            }
            return r;
        }
        lba = last.ptr;
        fuel = fuel - 1;
    }
    Err(ImageError::Corrupt)
}

/// The bytes of a zeroed sector.
pub open spec fn seq_zero_sector() -> Seq<u8> {
    Seq::new(512, |k: int| 0u8)
}

/// Writing a link at slot `i` of a link sector leaves the other slots.
proof fn lemma_link_others(b0: Seq<u8>, b: Seq<u8>, i: int, j: int, l: LinkEntry)
    requires
        0 <= i < 32,
        0 <= j < 32,
        i != j,
        b0.len() == 512,
        b == splice(b0, i * 16, l.image()),
    ensures
        links_of(b)[j] == links_of(b0)[j],
{
    vstd::bytes::lemma_auto_spec_u64_to_from_le_bytes();
    assert(l.image().len() == 16);
    assert(b.subrange(j * 16, j * 16 + 8) =~= b0.subrange(j * 16, j * 16 + 8));
    assert(b.subrange(j * 16 + 8, j * 16 + 16) =~= b0.subrange(j * 16 + 8, j * 16 + 16));
}

/// After writing `l` at slot `i`, that slot reads back as `l`.
proof fn lemma_link_written(b0: Seq<u8>, b: Seq<u8>, i: int, l: LinkEntry)
    requires
        0 <= i < 32,
        b0.len() == 512,
        b == splice(b0, i * 16, l.image()),
    ensures
        links_of(b)[i] == l,
{
    vstd::bytes::lemma_auto_spec_u64_to_from_le_bytes();
    assert(b.subrange(i * 16, i * 16 + 16) =~= l.image());
    assert(b.subrange(i * 16, i * 16 + 8) =~= l.image().subrange(0, 8));
    assert(b.subrange(i * 16 + 8, i * 16 + 16) =~= l.image().subrange(8, 16));
    assert(l.image().subrange(0, 8) =~= super::disk::le64(l.ptr));
    assert(l.image().subrange(8, 16) =~= super::disk::le64(l.size));
}

} // verus!
