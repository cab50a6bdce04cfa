//! The in-memory block allocator of LemonFS.
//!
//! The bitmap is held per sector-sized block in a compact form: a block whose bits are all
//! free is `Free`, one whose bits are all used is `Full`, and only the others hold their bytes.

use vstd::prelude::*;
use super::disk::{BitmapBlock, BITS_PER_BLOCK, byte_bit};
use vstd::arithmetic::div_mod::lemma_fundamental_div_mod_converse;

verus! {

/// The state of one bitmap block.
pub enum BlockState {
    Free,
    Full,
    Mixed(Box<BitmapBlock>),
}

/// Bit `k` (0..4096) of a block in the given state; `true` means used.
pub open spec fn state_bit(s: BlockState, k: int) -> bool {
    match s {
        BlockState::Free => false,
        BlockState::Full => true,
        BlockState::Mixed(b) => b.bit(k),
    }
}

/// A block state is canonical when a `Mixed` block holds both a free and a used bit.
pub open spec fn canonical(s: BlockState) -> bool {
    match s {
        BlockState::Mixed(b) => (exists|k: int| 0 <= k < BITS_PER_BLOCK && b.bit(k))
            && (exists|k: int| 0 <= k < BITS_PER_BLOCK && !b.bit(k)),
        _ => true,
    }
}

/// The bits of a sequence of blocks, block after block.
pub open spec fn blocks_bits(blocks: Seq<BlockState>) -> Seq<bool> {
    Seq::new(blocks.len() * BITS_PER_BLOCK as nat, |i: int| state_bit(blocks[i / BITS_PER_BLOCK as int], i % BITS_PER_BLOCK as int))
}

/// `bits` with the range `[start, start + count)` set to `v`.
pub open spec fn set_range(bits: Seq<bool>, start: int, count: int, v: bool) -> Seq<bool> {
    Seq::new(bits.len(), |i: int| if start <= i < start + count { v } else { bits[i] })
}

/// Number of consecutive free bits that end just before position `end`.
pub open spec fn trailing_free(bits: Seq<bool>, end: int) -> nat
    decreases end,
{
    if end <= 0 || bits[end - 1] { 0 } else { 1 + trailing_free(bits, end - 1) }
}

/// The first fit found from block `b` on: the start of the free run that ends at the end of
/// the first block whose trailing free run is at least `count` bits long.
pub open spec fn first_fit_from(bits: Seq<bool>, nblocks: int, count: int, b: int) -> Option<int>
    decreases nblocks - b,
{
    if b >= nblocks || b < 0 {
        None
    } else if trailing_free(bits, (b + 1) * BITS_PER_BLOCK as int) >= count {
        Some((b + 1) * BITS_PER_BLOCK as int - trailing_free(bits, (b + 1) * BITS_PER_BLOCK as int))
    } else {
        first_fit_from(bits, nblocks, count, b + 1)
    }
}

/// The bit where `alloc` places `count` blocks, if any. The run is checked at the end of each
/// bitmap block only, so a free run that ends inside a block before a used bit is not taken.
pub open spec fn first_fit(bits: Seq<bool>, nblocks: int, count: int) -> Option<int> {
    if count == 0 { None } else { first_fit_from(bits, nblocks, count, 0) }
}


/// Position `k` of block `b` is bit `b * 4096 + k`.
pub proof fn lemma_block_index(b: int, k: int)
    requires
        0 <= b,
        0 <= k < BITS_PER_BLOCK,
    ensures
        (b * BITS_PER_BLOCK as int + k) / BITS_PER_BLOCK as int == b,
        (b * BITS_PER_BLOCK as int + k) % BITS_PER_BLOCK as int == k,
{
    lemma_fundamental_div_mod_converse(b * BITS_PER_BLOCK as int + k, BITS_PER_BLOCK as int, b, k);
}

/// Replacing one block by a state with the same bits leaves the bits unchanged.
proof fn lemma_replace_same_bits(blocks: Seq<BlockState>, b: int, s: BlockState)
    requires
        0 <= b < blocks.len(),
        forall|k: int| 0 <= k < BITS_PER_BLOCK ==> #[trigger] state_bit(s, k) == state_bit(blocks[b], k),
    ensures
        blocks_bits(blocks.update(b, s)) == blocks_bits(blocks),
{
    let nb = blocks.update(b, s);
    assert forall|i: int| 0 <= i < blocks.len() * BITS_PER_BLOCK implies #[trigger] blocks_bits(nb)[i] == blocks_bits(blocks)[i] by {
        let q = i / BITS_PER_BLOCK as int;
        let r = i % BITS_PER_BLOCK as int;
        assert(q * BITS_PER_BLOCK as int + r == i);
        assert(0 <= q < blocks.len()) by (nonlinear_arith)
            requires q * 4096 + r == i, 0 <= r < 4096, 0 <= i < blocks.len() * 4096;
        if q == b {
            assert(state_bit(s, r) == state_bit(blocks[b], r));
        }
    }
    assert(blocks_bits(nb) =~= blocks_bits(blocks));
}

/// Replacing block `b` by a state whose bits differ only at position `k` (where it holds `v`)
/// updates bit `b * 4096 + k` to `v`.
proof fn lemma_replace_one_bit(blocks: Seq<BlockState>, b: int, s: BlockState, k: int, v: bool)
    requires
        0 <= b < blocks.len(),
        0 <= k < BITS_PER_BLOCK,
        state_bit(s, k) == v,
        forall|j: int| 0 <= j < BITS_PER_BLOCK && j != k ==> #[trigger] state_bit(s, j) == state_bit(blocks[b], j),
    ensures
        blocks_bits(blocks.update(b, s)) == blocks_bits(blocks).update(b * BITS_PER_BLOCK as int + k, v),
{
    let nb = blocks.update(b, s);
    let pos = b * BITS_PER_BLOCK as int + k;
    lemma_block_index(b, k);
    assert forall|i: int| 0 <= i < blocks.len() * BITS_PER_BLOCK implies #[trigger] blocks_bits(nb)[i] == blocks_bits(blocks).update(pos, v)[i] by {
        let q = i / BITS_PER_BLOCK as int;
        let r = i % BITS_PER_BLOCK as int;
        assert(q * BITS_PER_BLOCK as int + r == i);
        assert(0 <= q < blocks.len()) by (nonlinear_arith)
            requires q * 4096 + r == i, 0 <= r < 4096, 0 <= i < blocks.len() * 4096;
        if i == pos {
            assert(q == b && r == k);
        } else if q == b {
            assert(r != k);
        }
    }
    assert(0 <= pos < blocks.len() * BITS_PER_BLOCK) by (nonlinear_arith)
        requires pos == b * 4096 + k, 0 <= k < 4096, 0 <= b < blocks.len();
    assert(blocks_bits(nb) =~= blocks_bits(blocks).update(pos, v));
}

/// A nonzero byte has a set bit.
proof fn lemma_nonzero_byte(x: u8)
    requires
        x != 0,
    ensures
        exists|j: int| 0 <= j < 8 && #[trigger] byte_bit(x, j),
{
    assert(x != 0u8 ==> (((x >> 0u8) & 1u8) == 1u8 || ((x >> 1u8) & 1u8) == 1u8 || ((x >> 2u8) & 1u8) == 1u8
        || ((x >> 3u8) & 1u8) == 1u8 || ((x >> 4u8) & 1u8) == 1u8 || ((x >> 5u8) & 1u8) == 1u8
        || ((x >> 6u8) & 1u8) == 1u8 || ((x >> 7u8) & 1u8) == 1u8)) by (bit_vector);
    if byte_bit(x, 0) {} else if byte_bit(x, 1) {} else if byte_bit(x, 2) {} else if byte_bit(x, 3) {}
    else if byte_bit(x, 4) {} else if byte_bit(x, 5) {} else if byte_bit(x, 6) {} else { assert(byte_bit(x, 7)); }
}

/// A byte other than 0xFF has a clear bit.
proof fn lemma_nonfull_byte(x: u8)
    requires
        x != 0xFF,
    ensures
        exists|j: int| 0 <= j < 8 && !#[trigger] byte_bit(x, j),
{
    assert(x != 0xFFu8 ==> (((x >> 0u8) & 1u8) != 1u8 || ((x >> 1u8) & 1u8) != 1u8 || ((x >> 2u8) & 1u8) != 1u8
        || ((x >> 3u8) & 1u8) != 1u8 || ((x >> 4u8) & 1u8) != 1u8 || ((x >> 5u8) & 1u8) != 1u8
        || ((x >> 6u8) & 1u8) != 1u8 || ((x >> 7u8) & 1u8) != 1u8)) by (bit_vector);
    if !byte_bit(x, 0) {} else if !byte_bit(x, 1) {} else if !byte_bit(x, 2) {} else if !byte_bit(x, 3) {}
    else if !byte_bit(x, 4) {} else if !byte_bit(x, 5) {} else if !byte_bit(x, 6) {} else { assert(!byte_bit(x, 7)); }
}

/// The bits of a block whose bytes all equal `v` (0 or 0xFF).
proof fn lemma_uniform_block(blk: BitmapBlock, v: u8)
    requires
        v == 0 || v == 0xFF,
        forall|i: int| 0 <= i < 512 ==> blk.0@[i] == v,
    ensures
        forall|k: int| 0 <= k < BITS_PER_BLOCK ==> #[trigger] blk.bit(k) == (v == 0xFF),
{
    assert forall|k: int| 0 <= k < BITS_PER_BLOCK implies #[trigger] blk.bit(k) == (v == 0xFF) by {
        let j = (k % 8) as u8;
        assert(blk.0@[k / 8] == v);
        assert(((0u8 >> j) & 1u8) == 0u8) by (bit_vector) requires j < 8u8;
        assert(((0xFFu8 >> j) & 1u8) == 1u8) by (bit_vector) requires j < 8u8;
    }
}


/// A trailing run never reaches before position 0.
pub proof fn lemma_trailing_free_bound(bits: Seq<bool>, end: int)
    ensures
        end >= 0 ==> trailing_free(bits, end) <= end,
    decreases end,
{
    if end > 0 && !bits[end - 1] {
        lemma_trailing_free_bound(bits, end - 1);
    }
}

/// Every bit of the trailing run that ends at `end` is free.
pub proof fn lemma_trailing_free_run(bits: Seq<bool>, end: int, i: int)
    requires
        end - trailing_free(bits, end) <= i < end,
    ensures
        !bits[i],
    decreases end,
{
    if end > 0 && !bits[end - 1] {
        if i < end - 1 {
            lemma_trailing_free_run(bits, end - 1, i);
        }
    }
}

/// A stretch of `m` free bits before `p + m` extends the run that ends at `p` by `m`.
proof fn lemma_trailing_free_extend(bits: Seq<bool>, p: int, m: int)
    requires
        0 <= p,
        0 <= m,
        forall|i: int| p <= i < p + m ==> !bits[i],
    ensures
        trailing_free(bits, p + m) == m + trailing_free(bits, p),
    decreases m,
{
    if m > 0 {
        lemma_trailing_free_extend(bits, p, m - 1);
        assert(!bits[p + m - 1]);
    }
}

/// What a first fit found from block `b` is: a run of at least `count` free bits inside the bits.
pub proof fn lemma_first_fit_from(bits: Seq<bool>, nblocks: int, count: int, b: int)
    requires
        bits.len() == nblocks * BITS_PER_BLOCK,
        count >= 0,
    ensures
        first_fit_from(bits, nblocks, count, b) matches Some(st) ==> {
            &&& 0 <= st
            &&& st + count <= bits.len()
            &&& forall|i: int| st <= i < st + count ==> !#[trigger] bits[i]
        },
    decreases nblocks - b,
{
    if b >= nblocks || b < 0 {
    } else {
        let end = (b + 1) * BITS_PER_BLOCK as int;
        let t = trailing_free(bits, end);
        if t >= count {
            lemma_trailing_free_bound(bits, end);
            assert(end <= bits.len()) by (nonlinear_arith)
                requires end == (b + 1) * 4096, b < nblocks, bits.len() == nblocks * 4096;
            assert forall|i: int| end - t <= i < end - t + count implies !#[trigger] bits[i] by {
                lemma_trailing_free_run(bits, end, i);
            }
        } else {
            lemma_first_fit_from(bits, nblocks, count, b + 1);
        }
    }
}

/// What a first fit is: a run of `count` free bits inside the bits.
pub proof fn lemma_first_fit(bits: Seq<bool>, nblocks: int, count: int)
    requires
        bits.len() == nblocks * BITS_PER_BLOCK,
        count >= 0,
    ensures
        first_fit(bits, nblocks, count) matches Some(st) ==> {
            &&& 0 <= st
            &&& st + count <= bits.len()
            &&& forall|i: int| st <= i < st + count ==> !#[trigger] bits[i]
        },
{
    lemma_first_fit_from(bits, nblocks, count, 0);
}


/// Freeing what `allocate` placed gives the bitmap back as it was: the run it takes was free.
pub proof fn lemma_free_undoes_allocate(bits: Seq<bool>, nblocks: int, count: int)
    requires
        bits.len() == nblocks * BITS_PER_BLOCK,
        count >= 0,
        first_fit(bits, nblocks, count) is Some,
    ensures
        set_range(set_range(bits, first_fit(bits, nblocks, count)->0, count, true),
            first_fit(bits, nblocks, count)->0, count, false) == bits,
{
    lemma_first_fit(bits, nblocks, count);
    let st = first_fit(bits, nblocks, count)->0;
    assert forall|i: int| 0 <= i < bits.len() implies #[trigger] set_range(set_range(bits, st, count, true), st, count, false)[i] == bits[i] by {
        if st <= i < st + count {
            assert(!bits[i]);
        }
    }
    assert(set_range(set_range(bits, st, count, true), st, count, false) =~= bits);
}

/// The blocks that `allocate` hands out were all free, and are all used afterwards.
pub proof fn lemma_allocate_takes_free_blocks(bits: Seq<bool>, nblocks: int, count: int)
    requires
        bits.len() == nblocks * BITS_PER_BLOCK,
        count >= 0,
        first_fit(bits, nblocks, count) is Some,
    ensures
        ({
            let st = first_fit(bits, nblocks, count)->0;
            &&& 0 <= st && st + count <= bits.len()
            &&& forall|i: int| st <= i < st + count ==> !#[trigger] bits[i]
            &&& forall|i: int| st <= i < st + count ==> #[trigger] set_range(bits, st, count, true)[i]
            &&& forall|i: int| 0 <= i < bits.len() && !(st <= i < st + count)
                ==> #[trigger] set_range(bits, st, count, true)[i] == bits[i]
        }),
{
    lemma_first_fit(bits, nblocks, count);
}

/// Returns `true` if every byte of `bytes` equals `v`.
fn all_bytes_are(bytes: &[u8; 512], v: u8) -> (r: bool)
    ensures
        r == forall|i: int| 0 <= i < 512 ==> bytes@[i] == v,
{
    let mut i: usize = 0;
    while i < 512
        invariant
            i <= 512,
            forall|j: int| 0 <= j < i ==> bytes@[j] == v,
        decreases 512 - i,
    {
        if bytes[i] != v {
            return false;
        }
        i = i + 1;
    }
    true
}

/// The canonical state with the bits of a block.
fn canonical_state(block: &BitmapBlock) -> (r: Option<BlockState>)
    ensures
        match r {
            Some(s) => canonical(s) && (s is Free || s is Full)
                && forall|k: int| 0 <= k < BITS_PER_BLOCK ==> #[trigger] state_bit(s, k) == block.bit(k),
            None => (exists|k: int| 0 <= k < BITS_PER_BLOCK && block.bit(k))
                && (exists|k: int| 0 <= k < BITS_PER_BLOCK && !block.bit(k)),
        },
{
    if all_bytes_are(&block.0, 0) {
        proof { lemma_uniform_block(*block, 0); }
        Some(BlockState::Free)
    } else if all_bytes_are(&block.0, 0xFF) {
        proof { lemma_uniform_block(*block, 0xFF); }
        Some(BlockState::Full)
    } else {
        proof {
            let i = choose|i: int| 0 <= i < 512 && block.0@[i] != 0;
            lemma_nonzero_byte(block.0@[i]);
            let j = choose|j: int| 0 <= j < 8 && byte_bit(block.0@[i], j);
            assert(block.bit(i * 8 + j)) by {
                lemma_fundamental_div_mod_converse(i * 8 + j, 8, i, j);
            }
            let i2 = choose|i: int| 0 <= i < 512 && block.0@[i] != 0xFF;
            lemma_nonfull_byte(block.0@[i2]);
            let j2 = choose|j: int| 0 <= j < 8 && !byte_bit(block.0@[i2], j);
            assert(!block.bit(i2 * 8 + j2)) by {
                lemma_fundamental_div_mod_converse(i2 * 8 + j2, 8, i2, j2);
            }
        }
        None
    }
}

/// The LemonFS block allocator.
pub struct BitmapAllocator {
    pub blocks: Vec<BlockState>,
    data_start: u64,
}

impl BitmapAllocator {
    /// The allocation bits, one per data block; `true` means used.
    pub closed spec fn bits(&self) -> Seq<bool> {
        blocks_bits(self.blocks@)
    }

    /// The number of bitmap blocks.
    pub closed spec fn num_blocks(&self) -> nat {
        self.blocks@.len()
    }

    /// The state of bitmap block `i`.
    pub closed spec fn block_state(&self, i: int) -> BlockState {
        self.blocks@[i]
    }

    /// The LBA of the first data block, which bit 0 stands for.
    pub closed spec fn base(&self) -> u64 {
        self.data_start
    }

    /// Well-formedness: every block state is canonical and every bit maps to an LBA.
    pub closed spec fn wf(&self) -> bool {
        &&& self.blocks@.len() * BITS_PER_BLOCK <= usize::MAX
        &&& self.base() + self.blocks@.len() * BITS_PER_BLOCK <= u64::MAX
        &&& forall|i: int| 0 <= i < self.blocks@.len() ==> #[trigger] canonical(self.blocks@[i])
    }

    /// The size bounds: every bit is a `usize` and maps to an LBA that fits in a `u64`.
    closed spec fn sizes_ok(&self) -> bool {
        &&& self.blocks@.len() * BITS_PER_BLOCK <= usize::MAX
        &&& self.data_start + self.blocks@.len() * BITS_PER_BLOCK <= u64::MAX
    }

    /// Every block but `idx` is canonical.
    closed spec fn canonical_except(&self, idx: int) -> bool {
        forall|i: int| 0 <= i < self.blocks@.len() && i != idx ==> #[trigger] canonical(self.blocks@[i])
    }

    /// Every block state is a canonical one (a `Mixed` block holds both free and used bits):
    /// the form that every operation of the allocator keeps.
    pub proof fn lemma_canonical(&self, i: int)
        requires
            self.wf(),
            0 <= i < self.num_blocks(),
        ensures
            canonical(self.block_state(i)),
    {
    }

    /// The number of bits is the number of blocks times the bits per block.
    pub proof fn lemma_len(&self)
        ensures
            self.bits().len() == self.num_blocks() * BITS_PER_BLOCK,
    {
    }

    /// The LBA that bit 0 stands for.
    pub fn base_lba(&self) -> (r: u64)
        ensures
            r == self.base(),
    {
        self.data_start
    }

    /// The number of bitmap blocks.
    pub fn block_count(&self) -> (r: usize)
        ensures
            r == self.num_blocks(),
    {
        self.blocks.len()
    }

    /// The number of bits.
    pub fn bit_count(&self) -> (r: u64)
        requires
            self.wf(),
        ensures
            r == self.bits().len(),
    {
        proof { self.lemma_len(); }
        (self.blocks.len() * BITS_PER_BLOCK) as u64
    }

    /// An empty allocator whose bit 0 stands for LBA `data_start`.
    pub fn new(data_start: u64) -> (r: Self)
        ensures
            r.wf(),
            r.bits() == Seq::<bool>::empty(),
            r.base() == data_start,
    {
        let r = Self { blocks: Vec::new(), data_start };
        assert(r.bits() =~= Seq::<bool>::empty());
        r
    }

    /// Appends a block read from disk, in its canonical form.
    pub fn add_block(&mut self, block: Box<BitmapBlock>)
        requires
            old(self).wf(),
            (old(self).num_blocks() + 1) * BITS_PER_BLOCK <= usize::MAX,
            old(self).base() + (old(self).num_blocks() + 1) * BITS_PER_BLOCK <= u64::MAX,
        ensures
            final(self).wf(),
            final(self).base() == old(self).base(),
            final(self).num_blocks() == old(self).num_blocks() + 1,
            final(self).bits() == old(self).bits() + block.bits(),
            forall|i: int| 0 <= i < old(self).num_blocks() ==> #[trigger] final(self).block_state(i) == old(self).block_state(i),
            final(self).block_state(old(self).num_blocks() as int) is Free
                <==> forall|k: int| 0 <= k < BITS_PER_BLOCK ==> !#[trigger] block.bit(k),
            final(self).block_state(old(self).num_blocks() as int) is Full
                <==> forall|k: int| 0 <= k < BITS_PER_BLOCK ==> #[trigger] block.bit(k),
    {
        let ghost blk = *block;
        self.blocks.push(BlockState::Mixed(block));
        proof {
            let ob = old(self).blocks@;
            let nb = self.blocks@;
            assert forall|i: int| 0 <= i < nb.len() * BITS_PER_BLOCK implies #[trigger] blocks_bits(nb)[i] == (blocks_bits(ob) + blk.bits())[i] by {
                let q = i / BITS_PER_BLOCK as int;
                let r = i % BITS_PER_BLOCK as int;
                assert(q * BITS_PER_BLOCK as int + r == i);
                assert(0 <= q < nb.len()) by (nonlinear_arith)
                    requires q * 4096 + r == i, 0 <= r < 4096, 0 <= i < nb.len() * 4096;
                if q < ob.len() {
                    assert(i < ob.len() * BITS_PER_BLOCK) by (nonlinear_arith)
                        requires q * 4096 + r == i, 0 <= r < 4096, q < ob.len();
                } else {
                    assert(i >= ob.len() * BITS_PER_BLOCK) by (nonlinear_arith)
                        requires q * 4096 + r == i, 0 <= r < 4096, q >= ob.len();
                    assert(i - ob.len() * BITS_PER_BLOCK == r) by (nonlinear_arith)
                        requires q * 4096 + r == i, q == ob.len();
                }
            }
            assert(blocks_bits(nb) =~= blocks_bits(ob) + blk.bits());
        }
        let last = self.blocks.len() - 1;
        self.collapse(last);
        proof {
            let n = old(self).num_blocks() as int;
            let st = self.blocks@[n];
            assert(canonical(st));
            assert forall|k: int| 0 <= k < BITS_PER_BLOCK implies state_bit(st, k) == #[trigger] blk.bit(k) by {
                lemma_block_index(n, k);
                assert(self.bits()[n * BITS_PER_BLOCK + k] == blk.bits()[k]);
            }
            if forall|k: int| 0 <= k < BITS_PER_BLOCK ==> !#[trigger] blk.bit(k) {
                if st is Full { assert(state_bit(st, 0) == blk.bit(0)); }
                if st is Mixed {
                    let k = choose|k: int| 0 <= k < BITS_PER_BLOCK && st->Mixed_0.bit(k);
                    assert(state_bit(st, k) == blk.bit(k));
                }
            }
            if forall|k: int| 0 <= k < BITS_PER_BLOCK ==> #[trigger] blk.bit(k) {
                if st is Free { assert(state_bit(st, 0) == blk.bit(0)); }
                if st is Mixed {
                    let k = choose|k: int| 0 <= k < BITS_PER_BLOCK && !st->Mixed_0.bit(k);
                    assert(state_bit(st, k) == blk.bit(k));
                }
            }
        }
    }

    /// The bitmap block that holds bit `bit`.
    fn block_of(bit: u64) -> (r: usize)
        requires
            bit <= usize::MAX,
        ensures
            r == bit / BITS_PER_BLOCK as u64,
    {
        bit as usize / BITS_PER_BLOCK
    }

    /// The position of bit `bit` within its bitmap block.
    fn bit_in(bit: u64) -> (r: usize)
        requires
            bit <= usize::MAX,
        ensures
            r == bit % BITS_PER_BLOCK as u64,
    {
        bit as usize % BITS_PER_BLOCK
    }

    /// Replaces block `block_idx` by its canonical form; the bits are unchanged.
    fn collapse(&mut self, block_idx: usize)
        requires
            old(self).sizes_ok(),
            block_idx < old(self).blocks@.len(),
            old(self).canonical_except(block_idx as int),
        ensures
            final(self).wf(),
            final(self).base() == old(self).base(),
            final(self).blocks@.len() == old(self).blocks@.len(),
            final(self).bits() == old(self).bits(),
            forall|i: int| 0 <= i < old(self).blocks@.len() && i != block_idx ==> #[trigger] final(self).blocks@[i] == old(self).blocks@[i],
    {
        let new = match &self.blocks[block_idx] {
            BlockState::Mixed(block) => canonical_state(block),
            _ => None,
        };
        match new {
            Some(block_state) => {
                proof { lemma_replace_same_bits(self.blocks@, block_idx as int, block_state); }
                self.blocks[block_idx] = block_state;
            },
            None => {},
        }
    }

    /// Returns `true` if bit `bit` is free.
    fn is_free(&self, bit: u64) -> (r: bool)
        requires
            self.wf(),
            bit < self.bits().len(),
        ensures
            r == !self.bits()[bit as int],
    {
        let b = Self::block_of(bit);
        let k = Self::bit_in(bit);
        proof { lemma_block_index(b as int, k as int); }
        match &self.blocks[b] {
            BlockState::Free => true,
            BlockState::Full => false,
            BlockState::Mixed(blk) => !blk.get(k),
        }
    }

    /// Replaces a `Free` or `Full` block by a `Mixed` one with the same bits.
    fn materialize(&mut self, block: usize)
        requires
            old(self).sizes_ok(),
            block < old(self).blocks@.len(),
            !(old(self).blocks@[block as int] is Mixed),
        ensures
            final(self).sizes_ok(),
            final(self).base() == old(self).base(),
            final(self).blocks@.len() == old(self).blocks@.len(),
            final(self).bits() == old(self).bits(),
            final(self).blocks@[block as int] is Mixed,
            forall|i: int| 0 <= i < old(self).blocks@.len() && i != block ==> final(self).blocks@[i] == old(self).blocks@[i],
    {
        let fill: u8 = match &self.blocks[block] {
            BlockState::Free => 0,
            BlockState::Full => 0xFF,
            BlockState::Mixed(_) => 0,
        };
        let blk = BitmapBlock([fill; 512]);
        proof {
            assert forall|i: int| 0 <= i < 512 implies blk.0@[i] == fill by {}
            lemma_uniform_block(blk, fill);
            lemma_replace_same_bits(self.blocks@, block as int, BlockState::Mixed(Box::new(blk)));
        }
        self.blocks[block] = BlockState::Mixed(Box::new(blk));
    }

    /// Writes `v` into bit `bit`, keeping the block canonical.
    fn write_bit(&mut self, bit: u64, v: bool)
        requires
            old(self).wf(),
            bit < old(self).bits().len(),
        ensures
            final(self).wf(),
            final(self).base() == old(self).base(),
            final(self).blocks@.len() == old(self).blocks@.len(),
            final(self).bits() == old(self).bits().update(bit as int, v),
    {
        let block = Self::block_of(bit);
        let index = Self::bit_in(bit);
        proof {
            lemma_block_index(block as int, index as int);
            assert(block < self.blocks@.len()) by (nonlinear_arith)
                requires block * 4096 + index == bit, 0 <= index, bit < self.blocks@.len() * 4096;
        }

        let already = if v { matches!(self.blocks[block], BlockState::Full) } else { matches!(self.blocks[block], BlockState::Free) };
        if already {
            assert(self.bits().update(bit as int, v) =~= self.bits());
            return;
        }

        let is_mixed = matches!(self.blocks[block], BlockState::Mixed(_));
        if !is_mixed { self.materialize(block) }

        let mut blk: BitmapBlock = match &self.blocks[block] {
            BlockState::Mixed(b) => **b,
            _ => BitmapBlock([0u8; 512]),
        };
        let ghost before = blk;
        if v { blk.set(index) } else { blk.clear(index) }
        proof {
            assert(blk.bits()[index as int] == v);
            assert forall|j: int| 0 <= j < BITS_PER_BLOCK && j != index implies #[trigger] blk.bit(j) == before.bit(j) by {
                assert(blk.bits()[j] == before.bits()[j]);
            }
            lemma_replace_one_bit(self.blocks@, block as int, BlockState::Mixed(Box::new(blk)), index as int, v);
        }
        self.blocks[block] = BlockState::Mixed(Box::new(blk));
        self.collapse(block);
    }


    /// Finds where `count` blocks fit (see [`first_fit`]).
    fn find_first_fit(&self, count: u64) -> (r: Option<usize>)
        requires
            self.wf(),
        ensures
            match r {
                Some(st) => first_fit(self.bits(), self.num_blocks() as int, count as int) == Some(st as int),
                None => first_fit(self.bits(), self.num_blocks() as int, count as int) is None,
            },
    {
        if count == 0 { return None }

        let block_count = self.blocks.len();
        let ghost bits = self.bits();
        let ghost n = block_count as int;
        let mut start: Option<usize> = None;
        let mut run: usize = 0;
        let mut block: usize = 0;

        while block < block_count
            invariant
                self.wf(),
                bits == self.bits(),
                n == block_count,
                block_count == self.blocks@.len(),
                block <= block_count,
                count > 0,
                run == trailing_free(bits, block * BITS_PER_BLOCK as int),
                run <= block * BITS_PER_BLOCK,
                block * BITS_PER_BLOCK <= block_count * BITS_PER_BLOCK,
                start matches Some(st) ==> run > 0 && st == block * BITS_PER_BLOCK - run,
                start is None ==> run == 0,
                first_fit(bits, n, count as int) == first_fit_from(bits, n, count as int, block as int),
            decreases block_count - block,
        {
            let base = block * BITS_PER_BLOCK;
            proof {
                assert((block + 1) * BITS_PER_BLOCK <= block_count * BITS_PER_BLOCK) by (nonlinear_arith)
                    requires block < block_count;
                assert(base + BITS_PER_BLOCK == (block + 1) * BITS_PER_BLOCK) by (nonlinear_arith)
                    requires base == block * 4096;
            }
            match &self.blocks[block] {
                BlockState::Free => {
                    proof {
                        assert forall|i: int| base <= i < base + BITS_PER_BLOCK implies !bits[i] by {
                            lemma_block_index(block as int, i - base);
                        }
                        lemma_trailing_free_extend(bits, base as int, BITS_PER_BLOCK as int);
                    }
                    if start.is_none() { start = Some(base) }
                    run = run + BITS_PER_BLOCK;
                }

                BlockState::Full => {
                    proof { lemma_block_index(block as int, BITS_PER_BLOCK - 1); }
                    start = None;
                    run = 0;
                }

                BlockState::Mixed(b) => {
                    let mut bit: usize = 0;
                    while bit < BITS_PER_BLOCK
                        invariant
                            bits == self.bits(),
                            block < block_count,
                            block_count == self.blocks@.len(),
                            self.blocks@[block as int] == BlockState::Mixed(*b),
                            base == block * BITS_PER_BLOCK,
                            base + BITS_PER_BLOCK <= block_count * BITS_PER_BLOCK,
                            block_count * BITS_PER_BLOCK <= usize::MAX,
                            bit <= BITS_PER_BLOCK,
                            run == trailing_free(bits, base + bit),
                            run <= base + bit,
                            start matches Some(st) ==> run > 0 && st == base + bit - run,
                            start is None ==> run == 0,
                        decreases BITS_PER_BLOCK - bit,
                    {
                        proof {
                            lemma_block_index(block as int, bit as int);
                            assert(bits[base + bit] == b.bit(bit as int));
                        }
                        if b.get(bit) {
                            run = 0;
                            start = None;
                        } else {
                            if start.is_none() { start = Some(base + bit) }
                            run = run + 1;
                        }
                        bit = bit + 1;
                    }
                }
            }
            if run as u64 >= count { return start }
            block = block + 1;
        }
        None
    }

    /// Allocates `count` consecutive data blocks at the first fit and returns the LBA of the
    /// first one.
    pub fn allocate(&mut self, count: u64) -> (r: Option<u64>)
        requires
            old(self).wf(),
        ensures
            final(self).wf(),
            final(self).base() == old(self).base(),
            final(self).num_blocks() == old(self).num_blocks(),
            match first_fit(old(self).bits(), old(self).num_blocks() as int, count as int) {
                Some(st) => r == Some((old(self).base() + st) as u64)
                    && final(self).bits() == set_range(old(self).bits(), st, count as int, true),
                None => r is None && final(self).bits() == old(self).bits(),
            },
            r matches Some(lba) ==> old(self).base() <= lba && lba - old(self).base() + count <= old(self).bits().len()
                && first_fit(old(self).bits(), old(self).num_blocks() as int, count as int) == Some(lba - old(self).base()),
    {
        proof { self.lemma_len(); lemma_first_fit(self.bits(), self.num_blocks() as int, count as int); }
        let start = match self.find_first_fit(count) {
            Some(st) => st as u64,
            None => return None,
        };
        let ghost old_bits = self.bits();
        proof { lemma_first_fit(old_bits, self.num_blocks() as int, count as int); }
        let mut x: u64 = 0;
        while x < count
            invariant
                self.wf(),
                self.base() == old(self).base(),
                self.num_blocks() == old(self).num_blocks(),
                self.bits().len() == old_bits.len(),
                start + count <= old_bits.len(),
                x <= count,
                self.bits() == set_range(old_bits, start as int, x as int, true),
            decreases count - x,
        {
            self.set_bit(x + start);
            x = x + 1;
            assert(self.bits() =~= set_range(old_bits, start as int, x as int, true));
        }
        Some(start + self.data_start)
    }

    /// Frees the `count` data blocks that start at LBA `start`.
    pub fn free(&mut self, start: u64, count: u64)
        requires
            old(self).wf(),
            start >= old(self).base(),
            count == 0 || start - old(self).base() + count <= old(self).bits().len(),
        ensures
            final(self).wf(),
            final(self).base() == old(self).base(),
            final(self).num_blocks() == old(self).num_blocks(),
            final(self).bits() == set_range(old(self).bits(), start - old(self).base(), count as int, false),
    {
        let base = start - self.data_start;
        let ghost old_bits = self.bits();
        if count == 0 {
            assert(self.bits() =~= set_range(old_bits, base as int, 0, false));
            return;
        }
        let mut x: u64 = 0;
        while x < count
            invariant
                self.wf(),
                self.base() == old(self).base(),
                self.num_blocks() == old(self).num_blocks(),
                self.bits().len() == old_bits.len(),
                base + count <= old_bits.len(),
                x <= count,
                self.bits() == set_range(old_bits, base as int, x as int, false),
            decreases count - x,
        {
            self.clear_bit(x + base);
            x = x + 1;
            assert(self.bits() =~= set_range(old_bits, base as int, x as int, false));
        }
    }

    /// Marks every data block after LBA `lba` (exclusive) as used.
    pub fn reserve_from(&mut self, lba: u64)
        requires
            old(self).wf(),
            lba < old(self).base() || lba - old(self).base() < usize::MAX,
        ensures
            final(self).wf(),
            final(self).base() == old(self).base(),
            final(self).num_blocks() == old(self).num_blocks(),
            final(self).bits() == (if lba < old(self).base() {
                old(self).bits()
            } else {
                Seq::new(old(self).bits().len(), |i: int| if i > lba - old(self).base() { true } else { old(self).bits()[i] })
            }),
    {
        if lba < self.data_start { return }
        let start_bit = lba - self.data_start;
        let total = self.blocks.len() * BITS_PER_BLOCK;
        let ghost old_bits = self.bits();
        let mut bit: u64 = start_bit + 1;
        assert(self.bits() =~= Seq::new(old_bits.len(), |i: int| if start_bit < i < bit { true } else { old_bits[i] }));
        while bit < total as u64
            invariant
                self.wf(),
                self.base() == old(self).base(),
                self.num_blocks() == old(self).num_blocks(),
                old_bits.len() == total,
                self.bits().len() == total,
                bit > start_bit,
                self.bits() == Seq::new(old_bits.len(), |i: int| if start_bit < i < bit { true } else { old_bits[i] }),
            decreases total - bit,
        {
            self.set_bit(bit);
            bit = bit + 1;
            assert(self.bits() =~= Seq::new(old_bits.len(), |i: int| if start_bit < i < bit { true } else { old_bits[i] }));
        }
        assert(self.bits() =~= Seq::new(old_bits.len(), |i: int| if i > start_bit { true } else { old_bits[i] }));
    }


    /// The on-disk image of bitmap block `i`.
    pub fn block_image(&self, i: usize) -> (r: BitmapBlock)
        requires
            self.wf(),
            i < self.num_blocks(),
        ensures
            r.bits() == self.bits().subrange(i * BITS_PER_BLOCK, (i + 1) * BITS_PER_BLOCK),
    {
        let r = match &self.blocks[i] {
            BlockState::Free => BitmapBlock([0u8; 512]),
            BlockState::Full => BitmapBlock([0xFFu8; 512]),
            BlockState::Mixed(b) => **b,
        };
        proof {
            match self.blocks@[i as int] {
                BlockState::Free => {
                    assert forall|j: int| 0 <= j < 512 implies r.0@[j] == 0u8 by {}
                    lemma_uniform_block(r, 0);
                }
                BlockState::Full => {
                    assert forall|j: int| 0 <= j < 512 implies r.0@[j] == 0xFFu8 by {}
                    lemma_uniform_block(r, 0xFF);
                }
                _ => {}
            }
            assert forall|k: int| 0 <= k < BITS_PER_BLOCK implies #[trigger] r.bits()[k]
                == self.bits().subrange(i * BITS_PER_BLOCK, (i + 1) * BITS_PER_BLOCK)[k] by {
                lemma_block_index(i as int, k);
                assert((i + 1) * BITS_PER_BLOCK <= self.blocks@.len() * BITS_PER_BLOCK) by (nonlinear_arith)
                    requires i < self.blocks@.len();
                assert(i * BITS_PER_BLOCK + BITS_PER_BLOCK == (i + 1) * BITS_PER_BLOCK) by (nonlinear_arith);
            }
            assert(r.bits() =~= self.bits().subrange(i * BITS_PER_BLOCK, (i + 1) * BITS_PER_BLOCK));
        }
        r
    }

    /// Marks bit `bit` used.
    fn set_bit(&mut self, bit: u64)
        requires
            old(self).wf(),
            bit < old(self).bits().len(),
        ensures
            final(self).wf(),
            final(self).base() == old(self).base(),
            final(self).blocks@.len() == old(self).blocks@.len(),
            final(self).bits() == old(self).bits().update(bit as int, true),
    {
        self.write_bit(bit, true)
    }

    /// Marks bit `bit` free.
    fn clear_bit(&mut self, bit: u64)
        requires
            old(self).wf(),
            bit < old(self).bits().len(),
        ensures
            final(self).wf(),
            final(self).base() == old(self).base(),
            final(self).blocks@.len() == old(self).blocks@.len(),
            final(self).bits() == old(self).bits().update(bit as int, false),
    {
        self.write_bit(bit, false)
    }
}

} // verus!
