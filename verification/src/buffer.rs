//! The compositing buffers: the RGB framebuffer (an `image` pixel buffer
//! behind trusted wrappers) and the verified depth buffer that gates writes
//! to it.
//!
//! The framebuffer's contents are modelled by the uninterpreted map
//! [`frame_pixels`] and its size by [`frame_dims`]; the wrappers state how
//! each `image` call moves them.

use vstd::prelude::*;

verus! {

/// The framebuffer: a `width` by `height` grid of RGB8 pixels, backed by an
/// `image` pixel buffer so the rendered raster is handed to the encoder
/// without conversion.  Opaque to the verifier; its contents are modelled by
/// [`frame_pixels`] and [`frame_dims`].
#[verifier::external_body]
pub struct Frame {
    img: image::RgbImage,
}

/// The pixel grid of a framebuffer: a map from in-range `(x, y)` coordinates
/// to `(r, g, b)` values.
pub uninterp spec fn frame_pixels(f: Frame) -> Map<(int, int), (u8, u8, u8)>;

/// The width and height a framebuffer was created with.
pub uninterp spec fn frame_dims(f: Frame) -> (u32, u32);

/// A color array as the pixel value it writes.
pub open spec fn rgb_of(c: [u8; 3]) -> (u8, u8, u8) {
    (c[0], c[1], c[2])
}

/// The coordinate domain of a `width` by `height` grid.
pub open spec fn grid_dom(width: int, height: int) -> Set<(int, int)> {
    Set::new(|p: (int, int)| 0 <= p.0 < width && 0 <= p.1 < height)
}

/// An all-black grid: every in-range coordinate maps to `(0, 0, 0)`.
pub open spec fn black_grid(width: int, height: int) -> Map<(int, int), (u8, u8, u8)> {
    Map::new(|p: (int, int)| 0 <= p.0 < width && 0 <= p.1 < height, |p: (int, int)| (0u8, 0u8, 0u8))
}

/// A framebuffer of the given size whose pixel map covers exactly the grid.
pub open spec fn frame_wf(f: Frame, width: u32, height: u32) -> bool {
    &&& frame_dims(f) == (width, height)
    &&& frame_pixels(f).dom() == grid_dom(width as int, height as int)
}

impl Frame {
    /// Relies on `image::ImageBuffer::new`: allocates a `width` by `height`
    /// buffer with every sample zeroed, so every pixel is black.  `new`
    /// panics when the byte length `3 * width * height` overflows `usize`,
    /// which the precondition rules out.
    #[verifier::external_body]
    pub fn new(width: u32, height: u32) -> (f: Frame)
        requires
            3 * width * height <= usize::MAX,
        ensures
            frame_dims(f) == (width, height),
            frame_pixels(f) == black_grid(width as int, height as int),
    {
        Frame { img: image::RgbImage::new(width, height) }
    }

    /// Relies on `image::ImageBuffer::put_pixel`: replaces the pixel at
    /// `(x, y)`, leaving the dimensions and every other pixel unchanged.
    /// `put_pixel` panics out of bounds, which the precondition rules out.
    #[verifier::external_body]
    pub fn put_pixel(&mut self, x: u32, y: u32, color: &[u8; 3])
        requires
            x < frame_dims(*old(self)).0,
            y < frame_dims(*old(self)).1,
        ensures
            frame_dims(*final(self)) == frame_dims(*old(self)),
            frame_pixels(*final(self)) == frame_pixels(*old(self)).insert(
                (x as int, y as int),
                (color[0], color[1], color[2]),
            ),
    {
        self.img.put_pixel(x, y, image::Rgb(*color));
    }

    /// Relies on `image::ImageBuffer::get_pixel`: returns the pixel last
    /// written at `(x, y)` (black if none was).  `get_pixel` panics out of
    /// bounds, which the precondition rules out.
    #[verifier::external_body]
    pub fn get_pixel(&self, x: u32, y: u32) -> (c: (u8, u8, u8))
        requires
            x < frame_dims(*self).0,
            y < frame_dims(*self).1,
        ensures
            c == frame_pixels(*self)[(x as int, y as int)],
    {
        let p = self.img.get_pixel(x, y);
        (p.0[0], p.0[1], p.0[2])
    }

    /// Relies on `image::ImageBuffer::dimensions`: returns the construction
    /// width and height.
    #[verifier::external_body]
    pub fn dimensions(&self) -> (d: (u32, u32))
        ensures
            d == frame_dims(*self),
    {
        self.img.dimensions()
    }
}

/// The smallest value of the depth domain: deeper than any surface, so any
/// drawn surface replaces it.  It plays the role of negative infinity.
pub const DEPTH_EMPTY: i64 = i64::MIN;

/// A `width` by `height` grid of fixed-point depth values in row-major
/// order, one per framebuffer pixel; a pixel's entry is the largest
/// (nearest) depth written to it so far, or [`DEPTH_EMPTY`].
pub struct DepthBuffer {
    pub width: u32,
    pub height: u32,
    pub data: Vec<i64>,
}

impl DepthBuffer {
    /// The backing vector covers the whole grid.
    pub open spec fn wf(self) -> bool {
        &&& self.data@.len() == self.width * self.height
        &&& self.width * self.height <= usize::MAX
    }

    /// A depth buffer with every cell empty ("nothing drawn yet").
    pub fn new(width: u32, height: u32) -> (zb: DepthBuffer)
        requires
            width * height <= usize::MAX,
        ensures
            zb.wf(),
            zb.width == width,
            zb.height == height,
            forall|i: int| 0 <= i < zb.data@.len() ==> zb.data@[i] == DEPTH_EMPTY,
    {
        let n = (width as usize) * (height as usize);
        let mut data: Vec<i64> = Vec::new();
        let mut i: usize = 0;
        while i < n
            invariant
                i <= n,
                data@.len() == i,
                forall|j: int| 0 <= j < i ==> data@[j] == DEPTH_EMPTY,
            decreases n - i,
        {
            data.push(DEPTH_EMPTY);
            i = i + 1;
        }
        DepthBuffer { width, height, data }
    }

    /// The stored depth at `(x, y)`.
    pub fn get(&self, x: u32, y: u32) -> (d: i64)
        requires
            self.wf(),
            x < self.width,
            y < self.height,
        ensures
            d == self.data@[x + y * self.width],
    {
        proof {
            lemma_grid_index(x as int, y as int, self.width as int, self.height as int);
        }
        let idx = (x as usize) + (y as usize) * (self.width as usize);
        self.data[idx]
    }

    /// Stores a depth at `(x, y)`, leaving every other cell unchanged.
    pub fn set(&mut self, x: u32, y: u32, d: i64)
        requires
            old(self).wf(),
            x < old(self).width,
            y < old(self).height,
        ensures
            final(self).wf(),
            final(self).width == old(self).width,
            final(self).height == old(self).height,
            final(self).data@ == old(self).data@.update(x + y * old(self).width, d),
    {
        proof {
            lemma_grid_index(x as int, y as int, self.width as int, self.height as int);
        }
        let idx = (x as usize) + (y as usize) * (self.width as usize);
        self.data.set(idx, d);
    }
}

/// A grid coordinate's row-major index lies within the grid.
pub proof fn lemma_grid_index(x: int, y: int, w: int, h: int)
    requires
        0 <= x < w,
        0 <= y < h,
    ensures
        0 <= x + y * w < w * h,
{
    assert(x + y * w < w * h) by (nonlinear_arith)
        requires
            0 <= x < w && 0 <= y < h,
    ;
    assert(y * w >= 0) by (nonlinear_arith)
        requires
            y >= 0 && w > 0,
    ;
}

/// Distinct grid coordinates have distinct row-major indices.
pub proof fn lemma_grid_index_injective(x1: int, y1: int, x2: int, y2: int, w: int)
    requires
        0 <= x1 < w,
        0 <= x2 < w,
        0 <= y1,
        0 <= y2,
        x1 + y1 * w == x2 + y2 * w,
    ensures
        x1 == x2 && y1 == y2,
{
    assert(y1 == y2) by (nonlinear_arith)
        requires
            0 <= x1 < w && 0 <= x2 < w && 0 <= y1 && 0 <= y2 && x1 + y1 * w == x2 + y2 * w,
    ;
}

} // verus!
