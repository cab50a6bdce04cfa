//! Geometry and pixel operations of a linear 32-bit frame buffer.

use vstd::prelude::*;

verus! {

/// A linear frame buffer of `height` rows of `stride` pixels, of which `width` are visible.
/// `ptr` is the address of its first pixel.
#[derive(Debug)]
pub struct FrameBuffer {
    pub ptr: usize,
    pub height: usize,
    pub width: usize,
    pub stride: usize,
}

/// The frame buffer's pixels after scrolling up by `rows`: row `r` takes row `r + rows`, and the
/// last `rows` rows are cleared. Nothing changes when `rows` is 0 or not less than `height`.
pub open spec fn scrolled(px: Seq<u32>, stride: int, height: int, rows: int) -> Seq<u32> {
    if rows == 0 || rows >= height {
        px
    } else {
        Seq::new(px.len(), |i: int| if i < (height - rows) * stride { px[i + rows * stride] } else { 0u32 })
    }
}

impl FrameBuffer {
    /// A frame buffer at `address`, `width` by `height` pixels with rows of `pitch` bytes.
    pub fn new(address: usize, width: usize, height: usize, pitch: usize) -> (r: Self)
        ensures
            r.ptr == address,
            r.width == width,
            r.height == height,
            r.stride == pitch / 4,
    {
        Self { ptr: address, height, width, stride: pitch / 4 }
    }

    /// The number of pixels in the buffer, `stride * height`.
    pub fn pixel_count(&self) -> (r: usize)
        requires
            self.stride * self.height <= usize::MAX,
        ensures
            r == self.stride * self.height,
    {
        self.stride * self.height
    }

    /// The index of pixel `(x, y)`, or `None` outside the visible area.
    pub fn pos_to_idx(&self, x: usize, y: usize) -> (r: Option<usize>)
        requires
            self.width <= self.stride,
            self.stride * self.height <= usize::MAX,
        ensures
            (x >= self.width || y >= self.height) ==> r is None,
            (x < self.width && y < self.height) ==> r == Some((y * self.stride + x) as usize),
            r matches Some(i) ==> i < self.stride * self.height,
            (x < self.width && y < self.height) ==> y * self.stride + x < self.stride * self.height,
    {
        if x >= self.width || y >= self.height {
            return None;
        }
        assert(y * self.stride + x < self.stride * self.height) by (nonlinear_arith)
            requires y < self.height, x < self.width, self.width <= self.stride;
        Some(y * self.stride + x)
    }

    /// Sets pixel `(x, y)` of `pixels` to `color`; a position outside the visible area is ignored.
    pub fn set_pixel(&self, pixels: &mut [u32], x: usize, y: usize, color: u32)
        requires
            self.width <= self.stride,
            self.stride * self.height <= usize::MAX,
            old(pixels)@.len() == self.stride * self.height,
        ensures
            (x < self.width && y < self.height) ==> final(pixels)@ == old(pixels)@.update(y * self.stride + x, color),
            !(x < self.width && y < self.height) ==> final(pixels)@ == old(pixels)@,
    {
        match self.pos_to_idx(x, y) {
            Some(i) => { pixels[i] = color; },
            None => {},
        }
    }

    /// The color of pixel `(x, y)` of `pixels`, or 0 outside the visible area.
    pub fn read_pixel(&self, pixels: &[u32], x: usize, y: usize) -> (r: u32)
        requires
            self.width <= self.stride,
            self.stride * self.height <= usize::MAX,
            pixels@.len() == self.stride * self.height,
        ensures
            (x < self.width && y < self.height) ==> r == pixels@[y * self.stride + x],
            !(x < self.width && y < self.height) ==> r == 0,
    {
        match self.pos_to_idx(x, y) {
            Some(i) => pixels[i],
            None => 0,
        }
    }

    /// Sets every pixel of `pixels` to `color`.
    pub fn fill_screen(&self, pixels: &mut [u32], color: u32)
        ensures
            final(pixels)@ == Seq::new(old(pixels)@.len(), |i: int| color),
    {
        let mut i: usize = 0;
        while i < pixels.len()
            invariant
                i <= pixels@.len(),
                pixels@.len() == old(pixels)@.len(),
                forall|j: int| 0 <= j < i ==> pixels@[j] == color,
            decreases pixels@.len() - i,
        {
            pixels[i] = color;
            i = i + 1;
        }
        assert(pixels@ =~= Seq::new(old(pixels)@.len(), |i: int| color));
    }

    /// Scrolls `pixels` up by `rows` rows and clears the rows freed at the bottom.
    pub fn scroll(&self, pixels: &mut [u32], rows: usize)
        requires
            self.stride * self.height <= usize::MAX,
            old(pixels)@.len() == self.stride * self.height,
        ensures
            final(pixels)@ == scrolled(old(pixels)@, self.stride as int, self.height as int, rows as int),
    {
        if rows == 0 || rows >= self.height {
            return;
        }
        let stride = self.stride;
        let keep = self.height - rows;
        proof {
            vstd::arithmetic::mul::lemma_mul_is_distributive_sub(stride as int, self.height as int, rows as int);
            vstd::arithmetic::mul::lemma_mul_inequality(rows as int, self.height as int, stride as int);
            vstd::arithmetic::mul::lemma_mul_is_commutative(stride as int, self.height as int);
            vstd::arithmetic::mul::lemma_mul_is_commutative(stride as int, rows as int);
            vstd::arithmetic::mul::lemma_mul_is_commutative(stride as int, keep as int);
        }
        let shift = rows * stride;
        let kept = keep * stride;
        let total = pixels.len();
        let ghost before = pixels@;
        let mut i: usize = 0;
        while i < kept
            invariant
                kept + shift == total,
                total == pixels@.len(),
                before.len() == total,
                i <= kept,
                forall|j: int| 0 <= j < i ==> pixels@[j] == before[j + shift],
                forall|j: int| i <= j < total ==> pixels@[j] == before[j],
            decreases kept - i,
        {
            let v = pixels[i + shift];
            pixels[i] = v;
            i = i + 1;
        }
        while i < total
            invariant
                kept + shift == total,
                total == pixels@.len(),
                before.len() == total,
                kept <= i <= total,
                forall|j: int| 0 <= j < kept ==> pixels@[j] == before[j + shift],
                forall|j: int| kept <= j < i ==> pixels@[j] == 0u32,
            decreases total - i,
        {
            pixels[i] = 0;
            i = i + 1;
        }
        assert(pixels@ =~= scrolled(before, stride as int, self.height as int, rows as int));
    }
}

} // verus!
