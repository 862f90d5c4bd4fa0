//! The rasterization primitives: the line (with its incremental pixel
//! walker) and, further below, the triangle.
//!
//! A line's pixel walk canonicalizes its direction first — steep lines walk
//! the vertical axis, and the walk always proceeds with the major coordinate
//! increasing — so the pixel sequence depends only on the pair of endpoints,
//! not on their order (see [`lemma_line_pixels_symmetric`]).

use crate::buffer::{
    frame_dims, frame_pixels, grid_dom, lemma_grid_index, lemma_grid_index_injective, DepthBuffer,
    Frame,
};
use crate::geo::{in_i64, tdiv, Number, Vec3, SCALE};
use crate::geo::{div_trunc, div_trunc_i128};
use crate::geo::{
    cross_in_range, spec_cross, spec_dot3, spec_neg3, spec_normalize, spec_sub3, vec3_limited,
};
use crate::geo::{lemma_cross_anticommutative, lemma_dot_self_nonneg, lemma_normalize_neg};
use vstd::math::{abs, max, min};
use vstd::prelude::*;

verus! {

/// An ordered pair of endpoints; the rasterization algorithm itself
/// normalizes direction without mutating them.
#[derive(Clone, Copy, Debug, PartialEq, Eq, Structural)]
pub struct Line<T> {
    pub start: Vec3<T>,
    pub end: Vec3<T>,
}

/// Maps one normalized fixed-point coordinate into `[0, dim - 1]`: the
/// affine map `(c + 1) * dim / 2`, truncated, then clamped to the raster so
/// the extreme `+1` cannot index one past the end.
pub open spec fn spec_raster_coord(c: int, dim: int) -> int {
    let p = tdiv((c + SCALE) * dim, 2 * SCALE);
    if p < 0 {
        0
    } else if p > dim - 1 {
        dim - 1
    } else {
        p
    }
}

/// The executable form of [`spec_raster_coord`].
pub fn raster_coord(c: i64, dim: u32) -> (r: u32)
    requires
        dim >= 1,
        in_i64(c + SCALE),
        in_i64((c + SCALE) * dim),
    ensures
        r == spec_raster_coord(c as int, dim as int),
        r < dim,
{
    let num = (c + SCALE) * (dim as i64);
    let p = div_trunc(num, 2 * SCALE);
    if p < 0 {
        0
    } else if p > (dim as i64) - 1 {
        dim - 1
    } else {
        proof {
            crate::geo::lemma_tdiv_bounds(num as int, 2 * SCALE);
        }
        p as u32
    }
}

impl<T: Number> Line<T> {
    pub fn new(start: Vec3<T>, end: Vec3<T>) -> (l: Line<T>)
        ensures
            l == (Line { start, end }),
    {
        Line { start, end }
    }

    /// The two endpoints, start first.
    pub fn vertices(&self) -> (r: [Vec3<T>; 2])
        ensures
            r[0] == self.start,
            r[1] == self.end,
    {
        [self.start, self.end]
    }

    /// The full pixel walk, collected front to back.
    pub fn pixels(&self) -> (r: Vec<Vec3<i32>>)
        requires
            0 <= self.start.x.as_int() <= i32::MAX,
            0 <= self.start.y.as_int() <= i32::MAX,
            0 <= self.end.x.as_int() <= i32::MAX,
            0 <= self.end.y.as_int() <= i32::MAX,
        ensures
            r@.len() == self.pixel_seq().len(),
            forall|i: int| 0 <= i < r@.len() ==> r@[i].as_math() == self.pixel_seq()[i],
    {
        let ghost total = self.pixel_seq();
        let mut it = LineIterator::new(self);
        let mut out: Vec<Vec3<i32>> = Vec::new();
        loop
            invariant
                it.wf(),
                out@.len() + it.iter_seq().len() == total.len(),
                forall|i: int| 0 <= i < out@.len() ==> out@[i].as_math() == total[i],
                forall|i: int|
                    0 <= i < it.iter_seq().len() ==> it.iter_seq()[i] == total[out@.len() + i],
            ensures
                out@.len() == total.len(),
                forall|i: int| 0 <= i < out@.len() ==> out@[i].as_math() == total[i],
            decreases it.iter_seq().len(),
        {
            match it.next() {
                Some(p) => {
                    out.push(p);
                },
                None => {
                    break ;
                },
            }
        }
        out
    }

    /// The pixel walk of this line as a mathematical sequence.
    pub open spec fn pixel_seq(&self) -> Seq<Vec3<int>> {
        line_pixels(
            self.start.x.as_int(),
            self.start.y.as_int(),
            self.end.x.as_int(),
            self.end.y.as_int(),
        )
    }

    /// Writes the color at every pixel of the walk — no depth test; the
    /// wireframe primitive.  The endpoints must already be pixel coordinates
    /// inside the raster.
    pub fn draw(&self, img: &mut Frame, color: &[u8; 3])
        requires
            ({
                let w = frame_dims(*old(img)).0;
                let h = frame_dims(*old(img)).1;
                &&& frame_pixels(*old(img)).dom() == grid_dom(w as int, h as int)
                &&& 0 <= self.start.x.as_int() < w
                &&& 0 <= self.start.y.as_int() < h
                &&& 0 <= self.end.x.as_int() < w
                &&& 0 <= self.end.y.as_int() < h
                &&& w <= 0x8000_0000u32
                &&& h <= 0x8000_0000u32
            }),
        ensures
            frame_dims(*final(img)) == frame_dims(*old(img)),
            frame_pixels(*final(img)).dom() == frame_pixels(*old(img)).dom(),
            forall|px: int, py: int|
                frame_pixels(*old(img)).dom().contains((px, py)) ==> frame_pixels(*final(img))[(
                    px,
                    py,
                )] == (if walk_covers(self.pixel_seq(), px, py) {
                    crate::buffer::rgb_of(*color)
                } else {
                    frame_pixels(*old(img))[(px, py)]
                }),
    {
        let ghost m0 = frame_pixels(*img);
        let ghost total = self.pixel_seq();
        let ghost mut k: int = 0;
        let mut it = LineIterator::new(self);
        loop
            invariant
                it.wf(),
                0 <= k <= total.len(),
                it.iter_seq() == total.skip(k),
                it.box_x_lo() == min(self.start.x.as_int(), self.end.x.as_int()),
                it.box_x_hi() == max(self.start.x.as_int(), self.end.x.as_int()),
                it.box_y_lo() == min(self.start.y.as_int(), self.end.y.as_int()),
                it.box_y_hi() == max(self.start.y.as_int(), self.end.y.as_int()),
                0 <= it.box_x_lo() && it.box_x_hi() < frame_dims(*img).0,
                0 <= it.box_y_lo() && it.box_y_hi() < frame_dims(*img).1,
                frame_dims(*img) == frame_dims(*old(img)),
                frame_pixels(*img).dom() == m0.dom(),
                m0 == frame_pixels(*old(img)),
                m0.dom() == grid_dom(
                    frame_dims(*old(img)).0 as int,
                    frame_dims(*old(img)).1 as int,
                ),
                total == self.pixel_seq(),
                forall|px: int, py: int|
                    m0.dom().contains((px, py)) ==> frame_pixels(*img)[(px, py)] == (
                    if walk_covers_upto(total, k, px, py) {
                        crate::buffer::rgb_of(*color)
                    } else {
                        m0[(px, py)]
                    }),
            ensures
                k == total.len(),
            decreases it.iter_seq().len(),
        {
            match it.next() {
                Some(p) => {
                    proof {
                        assert(total.skip(k)[0] == total[k]);
                        assert(p.as_math() == total[k]);
                        assert(total.skip(k).drop_first() =~= total.skip(k + 1));
                    }
                    img.put_pixel(p.x as u32, p.y as u32, color);
                    proof {
                        k = k + 1;
                        assert(0 <= p.x < frame_dims(*old(img)).0 && 0 <= p.y < frame_dims(
                            *old(img),
                        ).1);
                        assert(grid_dom(
                            frame_dims(*old(img)).0 as int,
                            frame_dims(*old(img)).1 as int,
                        ).contains((p.x as int, p.y as int)));
                        assert(frame_pixels(*img).dom() =~= m0.dom());
                        assert forall|px: int, py: int|
                            m0.dom().contains((px, py)) implies frame_pixels(*img)[(px, py)] == (
                        if walk_covers_upto(total, k, px, py) {
                            crate::buffer::rgb_of(*color)
                        } else {
                            m0[(px, py)]
                        }) by {
                            if px == p.x && py == p.y {
                                assert(total[k - 1].x == px && total[k - 1].y == py);
                                assert(walk_covers_upto(total, k, px, py));
                            } else {
                                assert(walk_covers_upto(total, k, px, py) == walk_covers_upto(
                                    total,
                                    k - 1,
                                    px,
                                    py,
                                ));
                            }
                        }
                    }
                },
                None => {
                    proof {
                        assert(total.skip(k).len() == 0);
                        assert(k == total.len());
                    }
                    break ;
                },
            }
        }
    }
}

impl<T: Number> Line<T> {
    /// A filled line is just the line: drawing ignores the depth buffer.
    pub fn draw_filled(&self, img: &mut Frame, color: &[u8; 3], zbuf: &mut DepthBuffer)
        requires
            ({
                let w = frame_dims(*old(img)).0;
                let h = frame_dims(*old(img)).1;
                &&& frame_pixels(*old(img)).dom() == grid_dom(w as int, h as int)
                &&& 0 <= self.start.x.as_int() < w
                &&& 0 <= self.start.y.as_int() < h
                &&& 0 <= self.end.x.as_int() < w
                &&& 0 <= self.end.y.as_int() < h
                &&& w <= 0x8000_0000u32
                &&& h <= 0x8000_0000u32
            }),
        ensures
            frame_dims(*final(img)) == frame_dims(*old(img)),
            frame_pixels(*final(img)).dom() == frame_pixels(*old(img)).dom(),
            *final(zbuf) == *old(zbuf),
            forall|px: int, py: int|
                frame_pixels(*old(img)).dom().contains((px, py)) ==> frame_pixels(*final(img))[(
                    px,
                    py,
                )] == (if walk_covers(self.pixel_seq(), px, py) {
                    crate::buffer::rgb_of(*color)
                } else {
                    frame_pixels(*old(img))[(px, py)]
                }),
    {
        self.draw(img, color);
    }

    /// Whether some pixel of the walk lands on the point's x and y.
    pub fn inside(&self, point: &Vec3<i32>) -> (r: bool)
        requires
            0 <= self.start.x.as_int() <= i32::MAX,
            0 <= self.start.y.as_int() <= i32::MAX,
            0 <= self.end.x.as_int() <= i32::MAX,
            0 <= self.end.y.as_int() <= i32::MAX,
        ensures
            r == walk_covers(self.pixel_seq(), point.x as int, point.y as int),
    {
        let ghost total = self.pixel_seq();
        let ghost mut k: int = 0;
        let mut it = LineIterator::new(self);
        loop
            invariant
                it.wf(),
                0 <= k <= total.len(),
                it.iter_seq() == total.skip(k),
                total == self.pixel_seq(),
                !walk_covers_upto(total, k, point.x as int, point.y as int),
            ensures
                k == total.len(),
                !walk_covers(total, point.x as int, point.y as int),
            decreases it.iter_seq().len(),
        {
            match it.next() {
                Some(p) => {
                    proof {
                        assert(total.skip(k)[0] == total[k]);
                        assert(total.skip(k).drop_first() =~= total.skip(k + 1));
                    }
                    if p.x == point.x && p.y == point.y {
                        proof {
                            assert(total[k].x == point.x as int && total[k].y == point.y as int);
                            assert(walk_covers(total, point.x as int, point.y as int));
                        }
                        return true;
                    }
                    proof {
                        k = k + 1;
                        assert forall|i: int|
                            0 <= i < k && i < total.len() implies !(total[i].x == point.x as int
                            && total[i].y == point.y as int) by {
                            if i == k - 1 {
                                assert(total[i] == p.as_math());
                            }
                        }
                    }
                },
                None => {
                    proof {
                        assert(total.skip(k).len() == 0);
                        assert(k == total.len());
                    }
                    break ;
                },
            }
        }
        false
    }

    /// The endpoints narrowed to `i32`, start and end unchanged — the
    /// degenerate bounding box of a segment.
    pub fn bounding_box(&self, dimx: u32, dimy: u32) -> (r: Line<i32>)
        requires
            i32::MIN <= self.start.x.as_int() <= i32::MAX,
            i32::MIN <= self.start.y.as_int() <= i32::MAX,
            i32::MIN <= self.start.z.as_int() <= i32::MAX,
            i32::MIN <= self.end.x.as_int() <= i32::MAX,
            i32::MIN <= self.end.y.as_int() <= i32::MAX,
            i32::MIN <= self.end.z.as_int() <= i32::MAX,
        ensures
            r.start.x as int == self.start.x.as_int(),
            r.start.y as int == self.start.y.as_int(),
            r.start.z as int == self.start.z.as_int(),
            r.end.x as int == self.end.x.as_int(),
            r.end.y as int == self.end.y.as_int(),
            r.end.z as int == self.end.z.as_int(),
    {
        let start = Vec3::<i32>::new(
            self.start.x.to_i32_checked().unwrap(),
            self.start.y.to_i32_checked().unwrap(),
            self.start.z.to_i32_checked().unwrap(),
        );
        let end = Vec3::<i32>::new(
            self.end.x.to_i32_checked().unwrap(),
            self.end.y.to_i32_checked().unwrap(),
            self.end.z.to_i32_checked().unwrap(),
        );
        Line { start, end }
    }
}

/// Some pixel among the first `k` of the walk lands on `(x, y)`.
pub open spec fn walk_covers_upto(s: Seq<Vec3<int>>, k: int, x: int, y: int) -> bool {
    exists|i: int| 0 <= i < k && i < s.len() && s[i].x == x && s[i].y == y
}

/// Some pixel of the walk lands on `(x, y)`.
pub open spec fn walk_covers(s: Seq<Vec3<int>>, x: int, y: int) -> bool {
    walk_covers_upto(s, s.len() as int, x, y)
}

impl Line<i64> {
    /// Maps both endpoints from normalized coordinates into pixel
    /// coordinates, clamped to the raster; the rasterized z is zero.
    pub fn rasterize(&self, xdim: u32, ydim: u32) -> (r: Line<u32>)
        requires
            xdim >= 1,
            ydim >= 1,
            in_i64(self.start.x + SCALE),
            in_i64((self.start.x + SCALE) * xdim),
            in_i64(self.start.y + SCALE),
            in_i64((self.start.y + SCALE) * ydim),
            in_i64(self.end.x + SCALE),
            in_i64((self.end.x + SCALE) * xdim),
            in_i64(self.end.y + SCALE),
            in_i64((self.end.y + SCALE) * ydim),
        ensures
            r.start.x == spec_raster_coord(self.start.x as int, xdim as int),
            r.start.y == spec_raster_coord(self.start.y as int, ydim as int),
            r.end.x == spec_raster_coord(self.end.x as int, xdim as int),
            r.end.y == spec_raster_coord(self.end.y as int, ydim as int),
            r.start.z == 0 && r.end.z == 0,
    {
        let start = Vec3::<u32>::new(
            raster_coord(self.start.x, xdim),
            raster_coord(self.start.y, ydim),
            0,
        );
        let end = Vec3::<u32>::new(
            raster_coord(self.end.x, xdim),
            raster_coord(self.end.y, ydim),
            0,
        );
        Line { start, end }
    }
}

/// One step of the incremental error walk: `n` pixels remain; the walk
/// stands at `(x, y)` (in swapped coordinates when `steep`) with accumulated
/// error `err`; each step advances the major coordinate and accumulates
/// `2 * |dy|` of error, stepping the minor coordinate by the sign of `dy`
/// whenever the error exceeds the major span `dx`.
pub open spec fn spec_walk(
    n: nat,
    x: int,
    y: int,
    err: int,
    dx: int,
    dy: int,
    steep: bool,
) -> Seq<Vec3<int>>
    decreases n,
{
    if n == 0 {
        Seq::empty()
    } else {
        let pix: Vec3<int> = if steep {
            Vec3 { x: y, y: x, z: 0 }
        } else {
            Vec3 { x, y, z: 0 }
        };
        let e2 = err + 2 * abs(dy);
        let stepped = e2 > dx;
        let y2: int = if !stepped {
            y
        } else if dy > 0 {
            y + 1
        } else {
            y - 1
        };
        let e3: int = if stepped {
            e2 - 2 * dx
        } else {
            e2
        };
        seq![pix] + spec_walk((n - 1) as nat, x + 1, y2, e3, dx, dy, steep)
    }
}

/// The pixel sequence connecting two endpoints: swap axes for steep lines,
/// orient the walk along the increasing major axis, then walk.  The length
/// is the major span plus one, so both endpoints' pixels are emitted.
pub open spec fn line_pixels(x0: int, y0: int, x1: int, y1: int) -> Seq<Vec3<int>> {
    let steep = abs(x1 - x0) < abs(y1 - y0);
    let a0 = if steep {
        y0
    } else {
        x0
    };
    let b0 = if steep {
        x0
    } else {
        y0
    };
    let a1 = if steep {
        y1
    } else {
        x1
    };
    let b1 = if steep {
        x1
    } else {
        y1
    };
    let c0 = min(a0, a1);
    let c1 = max(a0, a1);
    let d0 = if a0 > a1 {
        b1
    } else {
        b0
    };
    let d1 = if a0 > a1 {
        b0
    } else {
        b1
    };
    spec_walk((c1 - c0 + 1) as nat, c0, d0, 0, c1 - c0, d1 - d0, steep)
}

/// The pixel sequence is the same whichever endpoint is the start: both
/// orders canonicalize to the same oriented walk.
pub proof fn lemma_line_pixels_symmetric(x0: int, y0: int, x1: int, y1: int)
    ensures
        line_pixels(x0, y0, x1, y1) == line_pixels(x1, y1, x0, y0),
{
    let steep = abs(x1 - x0) < abs(y1 - y0);
    assert(abs(x0 - x1) == abs(x1 - x0));
    assert(abs(y0 - y1) == abs(y1 - y0));
    let a0 = if steep {
        y0
    } else {
        x0
    };
    let b0 = if steep {
        x0
    } else {
        y0
    };
    let a1 = if steep {
        y1
    } else {
        x1
    };
    let b1 = if steep {
        x1
    } else {
        y1
    };
    if a0 == a1 {
        // the major span is zero, so the minor span is zero as well
        if steep {
            assert(abs(y1 - y0) == 0);
            assert(!(abs(x1 - x0) < 0));
            assert(b0 == b1);
        } else {
            assert(abs(y1 - y0) <= abs(x1 - x0));
            assert(abs(x1 - x0) == 0);
            assert(abs(y1 - y0) == 0);
            assert(b0 == b1);
        }
    }
}

/// The stateful pixel walker of a line: holds the oriented endpoints (in
/// swapped coordinates when `steep`), the spans, and the accumulated error.
#[derive(Clone, Copy, Debug)]
pub struct LineIterator {
    pub line: Line<u32>,
    pub dx: i64,
    pub dy: i64,
    pub derror: i64,
    pub error: i64,
    pub x: i64,
    pub y: i64,
    pub steep: bool,
}

impl LineIterator {
    /// The walker's internal consistency: the spans match the oriented
    /// endpoints, the error is bracketed by the major span, the position
    /// sits between the endpoints, and enough error budget remains that the
    /// minor coordinate can never overshoot the far endpoint.
    pub open spec fn wf(self) -> bool {
        &&& self.line.end.x <= i32::MAX && self.line.start.x <= i32::MAX
        &&& self.line.end.y <= i32::MAX && self.line.start.y <= i32::MAX
        &&& self.dx == self.line.end.x - self.line.start.x
        &&& self.dy == self.line.end.y - self.line.start.y
        &&& 0 <= self.dx
        &&& abs(self.dy as int) <= self.dx
        &&& self.derror == 2 * abs(self.dy as int)
        &&& -self.dx <= self.error <= self.dx
        &&& self.line.start.x <= self.x <= self.line.end.x + 1
        &&& self.x <= self.line.end.x ==> min(
            self.line.start.y as int,
            self.line.end.y as int,
        ) <= self.y <= max(self.line.start.y as int, self.line.end.y as int)
        &&& self.x <= self.line.end.x ==> self.error + 2 * (self.line.end.x - self.x) * abs(
            self.dy as int,
        ) <= 2 * self.dx * abs(self.line.end.y - self.y) + self.dx
    }

    /// How many pixels remain to be emitted.
    pub open spec fn remaining(self) -> nat {
        if self.x <= self.line.end.x {
            (self.line.end.x + 1 - self.x) as nat
        } else {
            0
        }
    }

    /// The pixels this walker will still emit.
    pub open spec fn iter_seq(self) -> Seq<Vec3<int>> {
        spec_walk(
            self.remaining(),
            self.x as int,
            self.y as int,
            self.error as int,
            self.dx as int,
            self.dy as int,
            self.steep,
        )
    }

    /// The smallest x any emitted pixel can carry.
    pub open spec fn box_x_lo(self) -> int {
        if self.steep {
            min(self.line.start.y as int, self.line.end.y as int)
        } else {
            self.line.start.x as int
        }
    }

    /// The largest x any emitted pixel can carry.
    pub open spec fn box_x_hi(self) -> int {
        if self.steep {
            max(self.line.start.y as int, self.line.end.y as int)
        } else {
            self.line.end.x as int
        }
    }

    /// The smallest y any emitted pixel can carry.
    pub open spec fn box_y_lo(self) -> int {
        if self.steep {
            self.line.start.x as int
        } else {
            min(self.line.start.y as int, self.line.end.y as int)
        }
    }

    /// The largest y any emitted pixel can carry.
    pub open spec fn box_y_hi(self) -> int {
        if self.steep {
            self.line.end.x as int
        } else {
            max(self.line.start.y as int, self.line.end.y as int)
        }
    }

    /// Builds the walker: converts the endpoints to pixel coordinates,
    /// swaps the axes of steep lines, and orients the walk along the
    /// increasing major axis.
    pub fn new<T: Number>(line: &Line<T>) -> (it: LineIterator)
        requires
            0 <= line.start.x.as_int() <= i32::MAX,
            0 <= line.start.y.as_int() <= i32::MAX,
            0 <= line.end.x.as_int() <= i32::MAX,
            0 <= line.end.y.as_int() <= i32::MAX,
        ensures
            it.wf(),
            it.iter_seq() == line.pixel_seq(),
            it.box_x_lo() == min(line.start.x.as_int(), line.end.x.as_int()),
            it.box_x_hi() == max(line.start.x.as_int(), line.end.x.as_int()),
            it.box_y_lo() == min(line.start.y.as_int(), line.end.y.as_int()),
            it.box_y_hi() == max(line.start.y.as_int(), line.end.y.as_int()),
    {
        let mut x0 = line.start.x.to_u32_checked().unwrap();
        let mut y0 = line.start.y.to_u32_checked().unwrap();
        let mut x1 = line.end.x.to_u32_checked().unwrap();
        let mut y1 = line.end.y.to_u32_checked().unwrap();
        let adx = if x1 >= x0 {
            x1 - x0
        } else {
            x0 - x1
        };
        let ady = if y1 >= y0 {
            y1 - y0
        } else {
            y0 - y1
        };
        let steep = adx < ady;
        if steep {
            let t0 = x0;
            x0 = y0;
            y0 = t0;
            let t1 = x1;
            x1 = y1;
            y1 = t1;
        }
        if x0 > x1 {
            let tx = x0;
            x0 = x1;
            x1 = tx;
            let ty = y0;
            y0 = y1;
            y1 = ty;
        }
        let dx = x1 as i64 - x0 as i64;
        let dy = y1 as i64 - y0 as i64;
        let ady = if dy >= 0 {
            dy
        } else {
            -dy
        };
        let derror = 2 * ady;
        let oriented = Line {
            start: Vec3::<u32>::new(x0, y0, 0),
            end: Vec3::<u32>::new(x1, y1, 0),
        };
        LineIterator { line: oriented, dx, dy, derror, error: 0, x: x0 as i64, y: y0 as i64, steep }
    }

    /// Emits the pixel at the current position (unswapping steep
    /// coordinates), then advances the walk; `None` once the major
    /// coordinate has passed the far endpoint.
    pub fn next(&mut self) -> (r: Option<Vec3<i32>>)
        requires
            old(self).wf(),
        ensures
            final(self).wf(),
            old(self).iter_seq().len() == 0 ==> r is None && *final(self) == *old(self),
            old(self).iter_seq().len() > 0 ==> r is Some && final(self).iter_seq() == old(
                self,
            ).iter_seq().drop_first(),
            match r {
                Some(p) => {
                    &&& old(self).iter_seq().len() > 0
                    &&& p.as_math() == old(self).iter_seq()[0]
                    &&& old(self).box_x_lo() <= p.x <= old(self).box_x_hi()
                    &&& old(self).box_y_lo() <= p.y <= old(self).box_y_hi()
                    &&& p.z == 0
                },
                None => old(self).iter_seq().len() == 0,
            },
            final(self).box_x_lo() == old(self).box_x_lo() && final(self).box_x_hi() == old(
                self,
            ).box_x_hi(),
            final(self).box_y_lo() == old(self).box_y_lo() && final(self).box_y_hi() == old(
                self,
            ).box_y_hi(),
    {
        if self.x > self.line.end.x as i64 {
            return None;
        }
        let px: i64 = if self.steep {
            self.y
        } else {
            self.x
        };
        let py: i64 = if self.steep {
            self.x
        } else {
            self.y
        };
        let pix = Vec3::<i32>::new(px as i32, py as i32, 0);
        proof {
            lemma_walk_unfold(
                self.remaining(),
                self.x as int,
                self.y as int,
                self.error as int,
                self.dx as int,
                self.dy as int,
                self.steep,
            );
            lemma_advance(*self);
        }
        self.error = self.error + self.derror;
        if self.error > self.dx {
            if self.dy > 0 {
                self.y = self.y + 1;
            } else {
                self.y = self.y - 1;
            }
            self.error = self.error - 2 * self.dx;
        }
        self.x = self.x + 1;
        Some(pix)
    }
}

/// Unfolds one step of the walk sequence.
proof fn lemma_walk_unfold(n: nat, x: int, y: int, err: int, dx: int, dy: int, steep: bool)
    requires
        n > 0,
    ensures
        ({
            let pix: Vec3<int> = if steep {
                Vec3 { x: y, y: x, z: 0 }
            } else {
                Vec3 { x, y, z: 0 }
            };
            let e2 = err + 2 * abs(dy);
            let stepped = e2 > dx;
            let y2: int = if !stepped {
                y
            } else if dy > 0 {
                y + 1
            } else {
                y - 1
            };
            let e3: int = if stepped {
                e2 - 2 * dx
            } else {
                e2
            };
            spec_walk(n, x, y, err, dx, dy, steep) == seq![pix] + spec_walk(
                (n - 1) as nat,
                x + 1,
                y2,
                e3,
                dx,
                dy,
                steep,
            ) && spec_walk(n, x, y, err, dx, dy, steep)[0] == pix && spec_walk(
                n,
                x,
                y,
                err,
                dx,
                dy,
                steep,
            ).drop_first() == spec_walk((n - 1) as nat, x + 1, y2, e3, dx, dy, steep)
        }),
{
    let s = spec_walk(n, x, y, err, dx, dy, steep);
    assert(s.drop_first() =~= s.subrange(1, s.len() as int));
}

/// The error budget argument: advancing the walk keeps the error bracketed
/// by the major span, and — while pixels remain — keeps the minor coordinate
/// between the oriented endpoints, because a minor step can only happen
/// strictly before the far endpoint's minor coordinate is reached.
proof fn lemma_advance(it: LineIterator)
    requires
        it.wf(),
        it.x <= it.line.end.x,
    ensures
        ({
            let e2 = it.error + 2 * abs(it.dy as int);
            let stepped = e2 > it.dx;
            let y2: int = if !stepped {
                it.y as int
            } else if it.dy > 0 {
                it.y + 1
            } else {
                it.y - 1
            };
            let e3: int = if stepped {
                e2 - 2 * it.dx
            } else {
                e2
            };
            &&& -it.dx <= e3 <= it.dx
            &&& it.x + 1 <= it.line.end.x ==> {
                &&& min(it.line.start.y as int, it.line.end.y as int) <= y2 <= max(
                    it.line.start.y as int,
                    it.line.end.y as int,
                )
                &&& e3 + 2 * (it.line.end.x - it.x - 1) * abs(it.dy as int) <= 2 * it.dx * abs(
                    it.line.end.y - y2,
                ) + it.dx
            }
        }),
{
    let k = it.line.end.x - it.x;
    let ady = abs(it.dy as int);
    let d = abs((it.line.end.y - it.y) as int);
    let e2 = it.error + 2 * ady;
    let stepped = e2 > it.dx;
    assert(it.error + 2 * k * ady <= 2 * it.dx * d + it.dx);
    if k >= 1 {
        assert(2 * k * ady >= 2 * ady) by (nonlinear_arith)
            requires
                k >= 1 && ady >= 0,
        ;
        assert(2 * (k - 1) * ady == 2 * k * ady - 2 * ady) by (nonlinear_arith);
        if stepped {
            // e2 > dx together with the budget forces distance to remain
            assert(2 * it.dx * d > 0);
            assert(d >= 1 && it.dx >= 1) by (nonlinear_arith)
                requires
                    2 * it.dx * d > 0 && d >= 0 && it.dx >= 0,
            ;
            let y2: int = if it.dy > 0 {
                it.y + 1
            } else {
                it.y - 1
            };
            if it.dy > 0 {
                assert(it.y < it.line.end.y);
                assert(abs(it.line.end.y - y2) == d - 1);
            } else {
                if it.dy == 0 {
                    assert(ady == 0);
                    assert(e2 <= it.dx);
                    assert(false);
                }
                assert(it.y > it.line.end.y);
                assert(abs(it.line.end.y - y2) == d - 1);
            }
            assert(2 * it.dx * (d - 1) == 2 * it.dx * d - 2 * it.dx) by (nonlinear_arith);
        }
    }
}

/// The largest coordinate magnitude the triangle routines accept: well
/// beyond the normalized device range `[-SCALE, SCALE]`, yet small enough
/// that every intermediate product fits its machine integer.
pub const COORD_LIMIT: i64 = 500_000_000;

/// Every component within `COORD_LIMIT` in magnitude.
pub open spec fn coord_limited(v: Vec3<int>) -> bool {
    &&& abs(v.x) <= COORD_LIMIT
    &&& abs(v.y) <= COORD_LIMIT
    &&& abs(v.z) <= COORD_LIMIT
}

/// The cross product whose z-component is twice the signed area of the
/// projected triangle: the two packed difference vectors of the barycentric
/// construction, crossed.
pub open spec fn bary_u(a: Vec3<int>, b: Vec3<int>, c: Vec3<int>, px: int, py: int) -> Vec3<int> {
    spec_cross(
        Vec3 { x: b.x - a.x, y: c.x - a.x, z: a.x - px },
        Vec3 { x: b.y - a.y, y: c.y - a.y, z: a.y - py },
    )
}

/// The barycentric coordinates of `(px, py)`, in fixed point: the sentinel
/// `(-1, 1, 1)` (scaled) when the projected triangle is degenerate, else the
/// three weights, which sum to one up to truncation.
pub open spec fn spec_barycentric(
    a: Vec3<int>,
    b: Vec3<int>,
    c: Vec3<int>,
    px: int,
    py: int,
) -> Vec3<int> {
    let u = bary_u(a, b, c, px, py);
    if u.z == 0 {
        Vec3 { x: -SCALE as int, y: SCALE as int, z: SCALE as int }
    } else {
        Vec3 {
            x: SCALE - tdiv((u.x + u.y) * SCALE, u.z),
            y: tdiv(u.y * SCALE, u.z),
            z: tdiv(u.x * SCALE, u.z),
        }
    }
}

/// Whether `(px, py)` lies inside the projected triangle: all three exact
/// (unrounded) barycentric weights are nonnegative.  A degenerate triangle
/// contains no point, matching the sentinel coordinates.
pub open spec fn spec_inside(a: Vec3<int>, b: Vec3<int>, c: Vec3<int>, px: int, py: int) -> bool {
    let u = bary_u(a, b, c, px, py);
    if u.z > 0 {
        u.x >= 0 && u.y >= 0 && u.x + u.y <= u.z
    } else if u.z < 0 {
        u.x <= 0 && u.y <= 0 && u.x + u.y >= u.z
    } else {
        false
    }
}

/// The flat normal of a triangle: `normalize(cross(c - a, b - a))`, whose
/// sign follows the vertex winding order (see [`lemma_normal_winding`]).
pub open spec fn spec_tri_normal(a: Vec3<int>, b: Vec3<int>, c: Vec3<int>) -> Vec3<int> {
    spec_normalize(spec_cross(spec_sub3(c, a), spec_sub3(b, a)))
}

/// Flipping the winding order of a triangle flips the sign of its normal.
pub proof fn lemma_normal_winding(a: Vec3<int>, b: Vec3<int>, c: Vec3<int>)
    requires
        spec_dot3(
            spec_cross(spec_sub3(c, a), spec_sub3(b, a)),
            spec_cross(spec_sub3(c, a), spec_sub3(b, a)),
        ) != 0,
    ensures
        spec_tri_normal(a, c, b) == spec_neg3(spec_tri_normal(a, b, c)),
{
    let u = spec_cross(spec_sub3(c, a), spec_sub3(b, a));
    lemma_cross_anticommutative(spec_sub3(b, a), spec_sub3(c, a));
    assert(spec_cross(spec_sub3(b, a), spec_sub3(c, a)) == spec_neg3(u));
    lemma_dot_self_nonneg(u);
    lemma_normalize_neg(u);
}

/// Three vertices with the three derived edges (ab, bc, ac) computed at
/// construction; constructed fresh per face and never mutated.
#[derive(Clone, Copy, Debug, PartialEq, Eq, Structural)]
#[verifier::ext_equal]
pub struct Triangle<T> {
    pub a: Vec3<T>,
    pub b: Vec3<T>,
    pub c: Vec3<T>,
    pub edges: [Line<T>; 3],
}

impl<T: Number> Triangle<T> {
    pub fn new(a: Vec3<T>, b: Vec3<T>, c: Vec3<T>) -> (t: Triangle<T>)
        ensures
            t.a == a && t.b == b && t.c == c,
            t.edges[0] == (Line { start: a, end: b }),
            t.edges[1] == (Line { start: b, end: c }),
            t.edges[2] == (Line { start: a, end: c }),
    {
        let ab = Line { start: a, end: b };
        let bc = Line { start: b, end: c };
        let ac = Line { start: a, end: c };
        Triangle { a, b, c, edges: [ab, bc, ac] }
    }

    /// The three vertices, in construction order.
    pub fn vertices(&self) -> (r: [Vec3<T>; 3])
        ensures
            r[0] == self.a,
            r[1] == self.b,
            r[2] == self.c,
    {
        [self.a, self.b, self.c]
    }
}

/// All three vertices within the coordinate limit.
pub open spec fn tri_limited(t: Triangle<i64>) -> bool {
    &&& coord_limited(t.a.as_math())
    &&& coord_limited(t.b.as_math())
    &&& coord_limited(t.c.as_math())
}

impl Triangle<i64> {
    /// The barycentric coordinates of a point, in fixed point, truncated
    /// toward zero; the sentinel `(-SCALE, SCALE, SCALE)` for a degenerate
    /// (near-zero projected area) triangle.
    pub fn barycentric(&self, point: &Vec3<i64>) -> (r: Vec3<i64>)
        requires
            tri_limited(*self),
            coord_limited(point.as_math()),
            in_i64(
                spec_barycentric(
                    self.a.as_math(),
                    self.b.as_math(),
                    self.c.as_math(),
                    point.x as int,
                    point.y as int,
                ).x,
            ),
            in_i64(
                spec_barycentric(
                    self.a.as_math(),
                    self.b.as_math(),
                    self.c.as_math(),
                    point.x as int,
                    point.y as int,
                ).y,
            ),
            in_i64(
                spec_barycentric(
                    self.a.as_math(),
                    self.b.as_math(),
                    self.c.as_math(),
                    point.x as int,
                    point.y as int,
                ).z,
            ),
        ensures
            r.as_math() == spec_barycentric(
                self.a.as_math(),
                self.b.as_math(),
                self.c.as_math(),
                point.x as int,
                point.y as int,
            ),
    {
        let u = self.bary_u_exec(point);
        if u.z == 0 {
            Vec3::new(-SCALE, SCALE, SCALE)
        } else {
            let uz = u.z as i128;
            let s = SCALE as i128;
            proof {
                crate::geo::lemma_tdiv_bounds((u.x + u.y) * SCALE, u.z as int);
            }
            let wa = s - div_trunc_i128((u.x as i128 + u.y as i128) * s, uz);
            let wb = div_trunc_i128(u.y as i128 * s, uz);
            let wc = div_trunc_i128(u.x as i128 * s, uz);
            Vec3::new(wa as i64, wb as i64, wc as i64)
        }
    }

    /// Whether the point lies inside this triangle's projection: all three
    /// exact barycentric weights nonnegative; never true for a degenerate
    /// triangle.
    pub fn inside(&self, point: &Vec3<i64>) -> (r: bool)
        requires
            tri_limited(*self),
            coord_limited(point.as_math()),
        ensures
            r == spec_inside(
                self.a.as_math(),
                self.b.as_math(),
                self.c.as_math(),
                point.x as int,
                point.y as int,
            ),
    {
        let u = self.bary_u_exec(point);
        if u.z > 0 {
            u.x >= 0 && u.y >= 0 && u.x as i128 + u.y as i128 <= u.z as i128
        } else if u.z < 0 {
            u.x <= 0 && u.y <= 0 && u.x as i128 + u.y as i128 >= u.z as i128
        } else {
            false
        }
    }

    /// The packed barycentric cross product of the fill loop.
    fn bary_u_exec(&self, point: &Vec3<i64>) -> (u: Vec3<i64>)
        requires
            tri_limited(*self),
            coord_limited(point.as_math()),
        ensures
            u.as_math() == bary_u(
                self.a.as_math(),
                self.b.as_math(),
                self.c.as_math(),
                point.x as int,
                point.y as int,
            ),
    {
        proof {
            lemma_bary_u_bounds(
                self.a.as_math(),
                self.b.as_math(),
                self.c.as_math(),
                point.x as int,
                point.y as int,
            );
        }
        let first = Vec3::new(self.b.x - self.a.x, self.c.x - self.a.x, self.a.x - point.x);
        let second = Vec3::new(self.b.y - self.a.y, self.c.y - self.a.y, self.a.y - point.y);
        first.cross(&second)
    }

    /// Maps the three vertices into pixel coordinates (clamped to the
    /// raster, z zeroed), exactly as [`Line::rasterize`] maps endpoints.
    pub fn rasterize(&self, dimx: u32, dimy: u32) -> (r: Triangle<i32>)
        requires
            tri_limited(*self),
            1 <= dimx <= i32::MAX,
            1 <= dimy <= i32::MAX,
        ensures
            r.a.x == spec_raster_coord(self.a.x as int, dimx as int),
            r.a.y == spec_raster_coord(self.a.y as int, dimy as int),
            r.b.x == spec_raster_coord(self.b.x as int, dimx as int),
            r.b.y == spec_raster_coord(self.b.y as int, dimy as int),
            r.c.x == spec_raster_coord(self.c.x as int, dimx as int),
            r.c.y == spec_raster_coord(self.c.y as int, dimy as int),
            r.a.z == 0 && r.b.z == 0 && r.c.z == 0,
            r.edges[0] == (Line { start: r.a, end: r.b }),
            r.edges[1] == (Line { start: r.b, end: r.c }),
            r.edges[2] == (Line { start: r.a, end: r.c }),
    {
        proof {
            lemma_raster_in_range(self.a.x as int, dimx as int);
            lemma_raster_in_range(self.a.y as int, dimy as int);
            lemma_raster_in_range(self.b.x as int, dimx as int);
            lemma_raster_in_range(self.b.y as int, dimy as int);
            lemma_raster_in_range(self.c.x as int, dimx as int);
            lemma_raster_in_range(self.c.y as int, dimy as int);
        }
        let a = Vec3::<i32>::new(
            raster_coord(self.a.x, dimx) as i32,
            raster_coord(self.a.y, dimy) as i32,
            0,
        );
        let b = Vec3::<i32>::new(
            raster_coord(self.b.x, dimx) as i32,
            raster_coord(self.b.y, dimy) as i32,
            0,
        );
        let c = Vec3::<i32>::new(
            raster_coord(self.c.x, dimx) as i32,
            raster_coord(self.c.y, dimy) as i32,
            0,
        );
        Triangle::new(a, b, c)
    }

    /// The unit normal `normalize(cross(c - a, b - a))`; requires a
    /// nondegenerate triangle (nonzero cross product).
    pub fn normal(&self) -> (r: Vec3<i64>)
        requires
            tri_limited(*self),
            spec_dot3(
                spec_cross(
                    spec_sub3(self.c.as_math(), self.a.as_math()),
                    spec_sub3(self.b.as_math(), self.a.as_math()),
                ),
                spec_cross(
                    spec_sub3(self.c.as_math(), self.a.as_math()),
                    spec_sub3(self.b.as_math(), self.a.as_math()),
                ),
            ) != 0,
        ensures
            r.as_math() == spec_tri_normal(self.a.as_math(), self.b.as_math(), self.c.as_math()),
            abs(r.x as int) <= SCALE,
            abs(r.y as int) <= SCALE,
            abs(r.z as int) <= SCALE,
    {
        proof {
            lemma_edge_cross_bounds(self.a.as_math(), self.b.as_math(), self.c.as_math());
        }
        let e1 = self.c.sub(&self.a);
        let e2 = self.b.sub(&self.a);
        let n0 = e1.cross(&e2);
        n0.normalize()
    }

    /// The axis-aligned bounding box of the rasterized vertices, as a `Line`
    /// from the minimum corner to the maximum corner; both lie inside the
    /// raster because rasterization clamps.
    pub fn bounding_box(&self, dimx: u32, dimy: u32) -> (r: Line<i32>)
        requires
            tri_limited(*self),
            1 <= dimx <= i32::MAX,
            1 <= dimy <= i32::MAX,
        ensures
            ({
                let rast = self.spec_rasterized(dimx as int, dimy as int);
                &&& r.start.x == vstd::math::min(rast.a.x, min(rast.b.x, rast.c.x))
                &&& r.start.y == min(rast.a.y, min(rast.b.y, rast.c.y))
                &&& r.end.x == max(rast.a.x, max(rast.b.x, rast.c.x))
                &&& r.end.y == max(rast.a.y, max(rast.b.y, rast.c.y))
                &&& r.start.z == 0 && r.end.z == 0
                &&& 0 <= r.start.x <= r.end.x < dimx
                &&& 0 <= r.start.y <= r.end.y < dimy
            }),
    {
        let rast = self.rasterize(dimx, dimy);
        let min_x = if rast.a.x <= rast.b.x && rast.a.x <= rast.c.x {
            rast.a.x
        } else if rast.b.x <= rast.c.x {
            rast.b.x
        } else {
            rast.c.x
        };
        let min_y = if rast.a.y <= rast.b.y && rast.a.y <= rast.c.y {
            rast.a.y
        } else if rast.b.y <= rast.c.y {
            rast.b.y
        } else {
            rast.c.y
        };
        let max_x = if rast.a.x >= rast.b.x && rast.a.x >= rast.c.x {
            rast.a.x
        } else if rast.b.x >= rast.c.x {
            rast.b.x
        } else {
            rast.c.x
        };
        let max_y = if rast.a.y >= rast.b.y && rast.a.y >= rast.c.y {
            rast.a.y
        } else if rast.b.y >= rast.c.y {
            rast.b.y
        } else {
            rast.c.y
        };
        proof {
            lemma_raster_coord_clamped(self.a.x as int, dimx as int);
            lemma_raster_coord_clamped(self.a.y as int, dimy as int);
        }
        Line { start: Vec3::new(min_x, min_y, 0), end: Vec3::new(max_x, max_y, 0) }
    }

    /// Rasterizes the triangle and fills every covered pixel of the bounding
    /// box whose interpolated depth is nearer than the depth buffer's
    /// current value: the z-buffer compositing rule, under which the final
    /// image does not depend on draw order.  A degenerate triangle covers
    /// nothing and the fill leaves both buffers unchanged.
    pub fn draw_filled(&self, img: &mut Frame, color: &[u8; 3], zbuf: &mut DepthBuffer)
        requires
            tri_limited(*self),
            ({
                let w = frame_dims(*old(img)).0;
                let h = frame_dims(*old(img)).1;
                &&& 1 <= w <= DIM_LIMIT
                &&& 1 <= h <= DIM_LIMIT
                &&& frame_pixels(*old(img)).dom() == grid_dom(w as int, h as int)
                &&& old(zbuf).wf()
                &&& old(zbuf).width == w
                &&& old(zbuf).height == h
            }),
        ensures
            frame_dims(*final(img)) == frame_dims(*old(img)),
            frame_pixels(*final(img)).dom() == frame_pixels(*old(img)).dom(),
            final(zbuf).wf(),
            final(zbuf).width == old(zbuf).width,
            final(zbuf).height == old(zbuf).height,
            frame_pixels(*final(img)) == fill_frame(
                frame_pixels(*old(img)),
                *self,
                frame_dims(*old(img)).0 as int,
                frame_dims(*old(img)).1 as int,
                old(zbuf).data@,
                crate::buffer::rgb_of(*color),
            ),
            final(zbuf).data@ == fill_depth_seq(
                old(zbuf).data@,
                *self,
                frame_dims(*old(img)).0 as int,
                frame_dims(*old(img)).1 as int,
            ),
    {
        let dims = img.dimensions();
        let w = dims.0;
        let h = dims.1;
        let ghost m0 = frame_pixels(*img);
        let ghost zb0 = zbuf.data@;
        let bbox = self.bounding_box(w, h);
        let rast = self.rasterize(w, h);
        let rt = Triangle::new(rast.a.to_i64(), rast.b.to_i64(), rast.c.to_i64());
        proof {
            assert(rt.a.as_math() == self.spec_rasterized(w as int, h as int).a);
            assert(rt.b.as_math() == self.spec_rasterized(w as int, h as int).b);
            assert(rt.c.as_math() == self.spec_rasterized(w as int, h as int).c);
        }
        let mut x = bbox.start.x;
        while x <= bbox.end.x
            invariant
                tri_limited(*self),
                w == frame_dims(*old(img)).0,
                h == frame_dims(*old(img)).1,
                1 <= w <= DIM_LIMIT,
                1 <= h <= DIM_LIMIT,
                m0 == frame_pixels(*old(img)),
                zb0 == old(zbuf).data@,
                m0.dom() == grid_dom(w as int, h as int),
                frame_dims(*img) == frame_dims(*old(img)),
                frame_pixels(*img).dom() == m0.dom(),
                zbuf.wf(),
                zbuf.width == w,
                zbuf.height == h,
                zbuf.data@.len() == zb0.len(),
                rt.a.as_math() == self.spec_rasterized(w as int, h as int).a,
                rt.b.as_math() == self.spec_rasterized(w as int, h as int).b,
                rt.c.as_math() == self.spec_rasterized(w as int, h as int).c,
                bbox.start.x == min(rt.a.x as int, min(rt.b.x as int, rt.c.x as int)),
                bbox.start.y == min(rt.a.y as int, min(rt.b.y as int, rt.c.y as int)),
                bbox.end.x == max(rt.a.x as int, max(rt.b.x as int, rt.c.x as int)),
                bbox.end.y == max(rt.a.y as int, max(rt.b.y as int, rt.c.y as int)),
                0 <= bbox.start.x <= bbox.end.x < w,
                0 <= bbox.start.y <= bbox.end.y < h,
                bbox.start.x <= x <= bbox.end.x + 1,
                forall|px: int, py: int|
                    m0.dom().contains((px, py)) ==> fill_cell_ok(
                        *self,
                        w as int,
                        m0,
                        zb0,
                        frame_pixels(*img),
                        zbuf.data@,
                        h as int,
                        crate::buffer::rgb_of(*color),
                        px,
                        py,
                        px < x,
                    ),
            decreases bbox.end.x + 1 - x,
        {
            let mut y = bbox.start.y;
            while y <= bbox.end.y
                invariant
                    tri_limited(*self),
                    w == frame_dims(*old(img)).0,
                    h == frame_dims(*old(img)).1,
                    1 <= w <= DIM_LIMIT,
                    1 <= h <= DIM_LIMIT,
                    m0 == frame_pixels(*old(img)),
                    zb0 == old(zbuf).data@,
                    m0.dom() == grid_dom(w as int, h as int),
                    frame_dims(*img) == frame_dims(*old(img)),
                    frame_pixels(*img).dom() == m0.dom(),
                    zbuf.wf(),
                    zbuf.width == w,
                    zbuf.height == h,
                    zbuf.data@.len() == zb0.len(),
                    rt.a.as_math() == self.spec_rasterized(w as int, h as int).a,
                    rt.b.as_math() == self.spec_rasterized(w as int, h as int).b,
                    rt.c.as_math() == self.spec_rasterized(w as int, h as int).c,
                    bbox.start.x == min(rt.a.x as int, min(rt.b.x as int, rt.c.x as int)),
                    bbox.start.y == min(rt.a.y as int, min(rt.b.y as int, rt.c.y as int)),
                    bbox.end.x == max(rt.a.x as int, max(rt.b.x as int, rt.c.x as int)),
                    bbox.end.y == max(rt.a.y as int, max(rt.b.y as int, rt.c.y as int)),
                    0 <= bbox.start.x <= bbox.end.x < w,
                    0 <= bbox.start.y <= bbox.end.y < h,
                    bbox.start.x <= x <= bbox.end.x,
                    bbox.start.y <= y <= bbox.end.y + 1,
                    forall|px: int, py: int|
                        m0.dom().contains((px, py)) ==> fill_cell_ok(
                            *self,
                            w as int,
                            m0,
                            zb0,
                            frame_pixels(*img),
                            zbuf.data@,
                            h as int,
                            crate::buffer::rgb_of(*color),
                            px,
                            py,
                            px < x || (px == x && py < y),
                        ),
                decreases bbox.end.y + 1 - y,
            {
                let p = Vec3::<i64>::new(x as i64, y as i64, 0);
                let ghost m_pre = frame_pixels(*img);
                let ghost zb_pre = zbuf.data@;
                let ghost cur_idx = x as int + y as int * w as int;
                proof {
                    lemma_grid_index(x as int, y as int, w as int, h as int);
                    assert(m0.dom().contains((x as int, y as int)));
                    assert(fill_cell_ok(
                        *self,
                        w as int,
                        m0,
                        zb0,
                        m_pre,
                        zb_pre,
                        h as int,
                        crate::buffer::rgb_of(*color),
                        x as int,
                        y as int,
                        false,
                    ));
                    assert(zb_pre[cur_idx] == zb0[cur_idx]);
                }
                if rt.inside(&p) {
                    let u = rt.bary_u_exec(&p);
                    proof {
                        lemma_fill_u_bounds(
                            rt.a.as_math(),
                            rt.b.as_math(),
                            rt.c.as_math(),
                            x as int,
                            y as int,
                        );
                        assert(-7000000000000000000 <= (self.a.z as int) * ((u.z as int) - (
                        u.x as int) - (u.y as int)) <= 7000000000000000000 && -7000000000000000000
                            <= (self.b.z as int) * (u.y as int) <= 7000000000000000000
                            && -7000000000000000000 <= (self.c.z as int) * (u.x as int)
                            <= 7000000000000000000) by (nonlinear_arith)
                            requires
                                -500000000 <= self.a.z <= 500000000 && -500000000 <= self.b.z
                                    <= 500000000 && -500000000 <= self.c.z <= 500000000
                                    && -4294967296 <= u.x <= 4294967296 && -4294967296 <= u.y
                                    <= 4294967296 && -4294967296 <= u.z <= 4294967296,
                        ;
                        lemma_depth_in_limit(
                            u.as_math(),
                            self.a.z as int,
                            self.b.z as int,
                            self.c.z as int,
                            COORD_LIMIT as int,
                        );
                    }
                    let num = (self.a.z as i128) * (u.z as i128 - u.x as i128 - u.y as i128) + (
                    self.b.z as i128) * (u.y as i128) + (self.c.z as i128) * (u.x as i128);
                    let d128 = div_trunc_i128(num, u.z as i128);
                    let d = d128 as i64;
                    proof {
                        assert(d == fill_depth(*self, w as int, h as int, x as int, y as int));
                    }
                    let dcur = zbuf.get(x as u32, y as u32);
                    if dcur < d {
                        zbuf.set(x as u32, y as u32, d);
                        img.put_pixel(x as u32, y as u32, color);
                        proof {
                            assert(frame_pixels(*img).dom() =~= m0.dom());
                            assert(fill_writes(
                                *self,
                                w as int,
                                h as int,
                                x as int,
                                y as int,
                                zb0[cur_idx] as int,
                            ));
                        }
                    } else {
                        proof {
                            assert(!fill_writes(
                                *self,
                                w as int,
                                h as int,
                                x as int,
                                y as int,
                                zb0[cur_idx] as int,
                            ));
                        }
                    }
                } else {
                    proof {
                        assert(!covers(*self, w as int, h as int, x as int, y as int));
                    }
                }
                proof {
                    assert forall|px: int, py: int|
                        m0.dom().contains((px, py)) implies fill_cell_ok(
                        *self,
                        w as int,
                        m0,
                        zb0,
                        frame_pixels(*img),
                        zbuf.data@,
                        h as int,
                        crate::buffer::rgb_of(*color),
                        px,
                        py,
                        px < x || (px == x && py < y + 1),
                    ) by {
                        assert(0 <= px < w && 0 <= py < h);
                        lemma_grid_index(px, py, w as int, h as int);
                        if px == x as int && py == y as int {
                        } else {
                            if px + py * (w as int) == cur_idx {
                                lemma_grid_index_injective(
                                    px,
                                    py,
                                    x as int,
                                    y as int,
                                    w as int,
                                );
                            }
                            assert(px + py * (w as int) != cur_idx);
                            assert(fill_cell_ok(
                                *self,
                                w as int,
                                m0,
                                zb0,
                                m_pre,
                                zb_pre,
                                h as int,
                                crate::buffer::rgb_of(*color),
                                px,
                                py,
                                px < x || (px == x && py < y),
                            ));
                            assert(frame_pixels(*img)[(px, py)] == m_pre[(px, py)]);
                            assert(zbuf.data@[px + py * (w as int)] == zb_pre[px + py * (
                            w as int)]);
                        }
                    }
                }
                y = y + 1;
            }
            x = x + 1;
            proof {
                assert forall|px: int, py: int| m0.dom().contains((px, py)) implies fill_cell_ok(
                    *self,
                    w as int,
                    m0,
                    zb0,
                    frame_pixels(*img),
                    zbuf.data@,
                    h as int,
                    crate::buffer::rgb_of(*color),
                    px,
                    py,
                    px < x,
                ) by {
                    assert(fill_cell_ok(
                        *self,
                        w as int,
                        m0,
                        zb0,
                        frame_pixels(*img),
                        zbuf.data@,
                        h as int,
                        crate::buffer::rgb_of(*color),
                        px,
                        py,
                        px < x - 1 || (px == x - 1 && py < bbox.end.y + 1),
                    ));
                    if px == x - 1 && py > bbox.end.y {
                        assert(!covers(*self, w as int, h as int, px, py));
                    }
                }
            }
        }
        proof {
            let wi = w as int;
            let hi = h as int;
            let c = crate::buffer::rgb_of(*color);
            let mf = frame_pixels(*img);
            let zf = zbuf.data@;
            assert forall|px: int, py: int| m0.dom().contains((px, py)) implies {
                &&& fill_writes(*self, wi, hi, px, py, zb0[px + py * wi] as int) ==> mf[(px, py)]
                    == c && zf[px + py * wi] == fill_depth(*self, wi, hi, px, py)
                &&& !fill_writes(*self, wi, hi, px, py, zb0[px + py * wi] as int) ==> mf[(px, py)]
                    == m0[(px, py)] && zf[px + py * wi] == zb0[px + py * wi]
            } by {
                assert(fill_cell_ok(*self, wi, m0, zb0, mf, zf, hi, c, px, py, px < x));
                if fill_writes(*self, wi, hi, px, py, zb0[px + py * wi] as int) {
                    assert(covers(*self, wi, hi, px, py));
                    assert(px <= bbox.end.x);
                }
            }
            assert forall|p: (int, int)| m0.dom().contains(p) implies mf[p] == fill_frame(
                m0,
                *self,
                wi,
                hi,
                zb0,
                c,
            )[p] by {
                assert(m0.dom().contains((p.0, p.1)));
            }
            assert(mf =~= fill_frame(m0, *self, wi, hi, zb0, c));
            assert forall|i: int| 0 <= i < zf.len() implies zf[i] == fill_depth_seq(
                zb0,
                *self,
                wi,
                hi,
            )[i] by {
                vstd::arithmetic::div_mod::lemma_mod_division_less_than_divisor(i, wi);
                vstd::arithmetic::div_mod::lemma_mod_bound(i, wi);
                assert(i < wi * hi);
                vstd::arithmetic::div_mod::lemma_multiply_divide_lt(i, wi, hi);
                vstd::arithmetic::div_mod::lemma_fundamental_div_mod(i, wi);
                let px = i % wi;
                let py = i / wi;
                assert(0 <= px < wi && 0 <= py < hi);
                assert(px + py * wi == i);
                assert(m0.dom().contains((px, py)));
            }
            assert(zf =~= fill_depth_seq(zb0, *self, wi, hi));
        }
    }

    /// Draws the three rasterized edges as lines — the wireframe mode, with
    /// no depth test.
    pub fn draw(&self, img: &mut Frame, color: &[u8; 3])
        requires
            tri_limited(*self),
            ({
                let w = frame_dims(*old(img)).0;
                let h = frame_dims(*old(img)).1;
                &&& 1 <= w <= DIM_LIMIT
                &&& 1 <= h <= DIM_LIMIT
                &&& frame_pixels(*old(img)).dom() == grid_dom(w as int, h as int)
            }),
        ensures
            frame_dims(*final(img)) == frame_dims(*old(img)),
            frame_pixels(*final(img)).dom() == frame_pixels(*old(img)).dom(),
            forall|px: int, py: int|
                frame_pixels(*old(img)).dom().contains((px, py)) ==> frame_pixels(*final(img))[(
                    px,
                    py,
                )] == (if wire_covers(
                    *self,
                    frame_dims(*old(img)).0 as int,
                    frame_dims(*old(img)).1 as int,
                    px,
                    py,
                ) {
                    crate::buffer::rgb_of(*color)
                } else {
                    frame_pixels(*old(img))[(px, py)]
                }),
    {
        let dims = img.dimensions();
        let w = dims.0;
        let h = dims.1;
        let ghost m0 = frame_pixels(*img);
        let rast = self.rasterize(w, h);
        proof {
            lemma_raster_coord_clamped(self.a.x as int, w as int);
            lemma_raster_coord_clamped(self.a.y as int, h as int);
            lemma_raster_coord_clamped(self.b.x as int, w as int);
            lemma_raster_coord_clamped(self.b.y as int, h as int);
            lemma_raster_coord_clamped(self.c.x as int, w as int);
            lemma_raster_coord_clamped(self.c.y as int, h as int);
        }
        let e0 = rast.edges[0];
        let e1 = rast.edges[1];
        let e2 = rast.edges[2];
        proof {
            assert(e0 == (Line { start: rast.a, end: rast.b }));
            assert(e1 == (Line { start: rast.b, end: rast.c }));
            assert(e2 == (Line { start: rast.a, end: rast.c }));
        }
        e0.draw(img, color);
        let ghost m1 = frame_pixels(*img);
        e1.draw(img, color);
        let ghost m2 = frame_pixels(*img);
        e2.draw(img, color);
        proof {
            let rt = self.spec_rasterized(w as int, h as int);
            let sab = line_pixels(rt.a.x, rt.a.y, rt.b.x, rt.b.y);
            let sbc = line_pixels(rt.b.x, rt.b.y, rt.c.x, rt.c.y);
            let sac = line_pixels(rt.a.x, rt.a.y, rt.c.x, rt.c.y);
            assert(e0.pixel_seq() == sab);
            assert(e1.pixel_seq() == sbc);
            assert(e2.pixel_seq() == sac);
            assert forall|px: int, py: int| m0.dom().contains((px, py)) implies frame_pixels(
                *img,
            )[(px, py)] == (if wire_covers(*self, w as int, h as int, px, py) {
                crate::buffer::rgb_of(*color)
            } else {
                m0[(px, py)]
            }) by {
                assert(m1[(px, py)] == (if walk_covers(sab, px, py) {
                    crate::buffer::rgb_of(*color)
                } else {
                    m0[(px, py)]
                }));
                assert(m2[(px, py)] == (if walk_covers(sbc, px, py) {
                    crate::buffer::rgb_of(*color)
                } else {
                    m1[(px, py)]
                }));
                assert(frame_pixels(*img)[(px, py)] == (if walk_covers(sac, px, py) {
                    crate::buffer::rgb_of(*color)
                } else {
                    m2[(px, py)]
                }));
            }
        }
    }

    /// The rasterized triangle's vertices, as [`rasterize`](Self::rasterize)
    /// computes them.
    pub open spec fn spec_rasterized(&self, dimx: int, dimy: int) -> Triangle<int> {
        Triangle {
            a: Vec3 {
                x: spec_raster_coord(self.a.x as int, dimx),
                y: spec_raster_coord(self.a.y as int, dimy),
                z: 0,
            },
            b: Vec3 {
                x: spec_raster_coord(self.b.x as int, dimx),
                y: spec_raster_coord(self.b.y as int, dimy),
                z: 0,
            },
            c: Vec3 {
                x: spec_raster_coord(self.c.x as int, dimx),
                y: spec_raster_coord(self.c.y as int, dimy),
                z: 0,
            },
            edges: [
                Line {
                    start: Vec3 {
                        x: spec_raster_coord(self.a.x as int, dimx),
                        y: spec_raster_coord(self.a.y as int, dimy),
                        z: 0,
                    },
                    end: Vec3 {
                        x: spec_raster_coord(self.b.x as int, dimx),
                        y: spec_raster_coord(self.b.y as int, dimy),
                        z: 0,
                    },
                },
                Line {
                    start: Vec3 {
                        x: spec_raster_coord(self.b.x as int, dimx),
                        y: spec_raster_coord(self.b.y as int, dimy),
                        z: 0,
                    },
                    end: Vec3 {
                        x: spec_raster_coord(self.c.x as int, dimx),
                        y: spec_raster_coord(self.c.y as int, dimy),
                        z: 0,
                    },
                },
                Line {
                    start: Vec3 {
                        x: spec_raster_coord(self.a.x as int, dimx),
                        y: spec_raster_coord(self.a.y as int, dimy),
                        z: 0,
                    },
                    end: Vec3 {
                        x: spec_raster_coord(self.c.x as int, dimx),
                        y: spec_raster_coord(self.c.y as int, dimy),
                        z: 0,
                    },
                },
            ],
        }
    }
}

/// The largest raster dimension the fill loop accepts: keeps every product
/// of rasterized coordinates inside `i64` and every depth term inside
/// `i128`.
pub const DIM_LIMIT: u32 = 32768;

/// The fill loop visits `(px, py)`: it lies in the rasterized triangle's
/// bounding box and inside the triangle's projection.  The box conjunct
/// excludes nothing (see [`lemma_covers_is_inside`]); it mirrors the loop.
pub open spec fn covers(t: Triangle<i64>, dimx: int, dimy: int, px: int, py: int) -> bool {
    let rt = t.spec_rasterized(dimx, dimy);
    &&& min(rt.a.x, min(rt.b.x, rt.c.x)) <= px <= max(rt.a.x, max(rt.b.x, rt.c.x))
    &&& min(rt.a.y, min(rt.b.y, rt.c.y)) <= py <= max(rt.a.y, max(rt.b.y, rt.c.y))
    &&& spec_inside(rt.a, rt.b, rt.c, px, py)
}

/// One coordinate of a point inside a triangle lies between the vertices'
/// coordinates: the exact barycentric weights are a convex combination.
proof fn lemma_hull_coord(u: Vec3<int>, av: int, bv: int, cv: int, p: int)
    requires
        u.x * (bv - av) + u.y * (cv - av) + u.z * (av - p) == 0,
        (u.z > 0 && u.x >= 0 && u.y >= 0 && u.x + u.y <= u.z) || (u.z < 0 && u.x <= 0 && u.y <= 0
            && u.x + u.y >= u.z),
    ensures
        min(av, min(bv, cv)) <= p <= max(av, max(bv, cv)),
{
    let wa = u.z - u.x - u.y;
    let lo = min(av, min(bv, cv));
    let hi = max(av, max(bv, cv));
    assert(lo <= av <= hi && lo <= bv <= hi && lo <= cv <= hi);
    assert(p * u.z == av * wa + bv * u.x + cv * u.y) by (nonlinear_arith)
        requires
            u.x * (bv - av) + u.y * (cv - av) + u.z * (av - p) == 0 && wa == u.z - u.x - u.y,
    ;
    if u.z > 0 {
        assert(lo * wa <= av * wa <= hi * wa) by (nonlinear_arith)
            requires
                lo <= av <= hi && wa >= 0,
        ;
        assert(lo * u.x <= bv * u.x <= hi * u.x) by (nonlinear_arith)
            requires
                lo <= bv <= hi && u.x >= 0,
        ;
        assert(lo * u.y <= cv * u.y <= hi * u.y) by (nonlinear_arith)
            requires
                lo <= cv <= hi && u.y >= 0,
        ;
        assert(hi * wa + hi * u.x + hi * u.y == hi * u.z && lo * wa + lo * u.x + lo * u.y == lo
            * u.z) by (nonlinear_arith)
            requires
                wa + u.x + u.y == u.z,
        ;
        assert(lo * u.z <= p * u.z <= hi * u.z);
        assert(lo <= p <= hi) by (nonlinear_arith)
            requires
                lo * u.z <= p * u.z <= hi * u.z && u.z > 0,
        ;
    } else {
        assert(hi * wa <= av * wa <= lo * wa) by (nonlinear_arith)
            requires
                lo <= av <= hi && wa <= 0,
        ;
        assert(hi * u.x <= bv * u.x <= lo * u.x) by (nonlinear_arith)
            requires
                lo <= bv <= hi && u.x <= 0,
        ;
        assert(hi * u.y <= cv * u.y <= lo * u.y) by (nonlinear_arith)
            requires
                lo <= cv <= hi && u.y <= 0,
        ;
        assert(hi * wa + hi * u.x + hi * u.y == hi * u.z && lo * wa + lo * u.x + lo * u.y == lo
            * u.z) by (nonlinear_arith)
            requires
                wa + u.x + u.y == u.z,
        ;
        assert(hi * u.z <= p * u.z <= lo * u.z);
        assert(lo <= p <= hi) by (nonlinear_arith)
            requires
                hi * u.z <= p * u.z <= lo * u.z && u.z < 0,
        ;
    }
}

/// A point inside a triangle's projection lies within the bounding box of
/// its vertices.
pub proof fn lemma_inside_within_hull(a: Vec3<int>, b: Vec3<int>, c: Vec3<int>, px: int, py: int)
    requires
        spec_inside(a, b, c, px, py),
    ensures
        min(a.x, min(b.x, c.x)) <= px <= max(a.x, max(b.x, c.x)),
        min(a.y, min(b.y, c.y)) <= py <= max(a.y, max(b.y, c.y)),
{
    let f = Vec3 { x: b.x - a.x, y: c.x - a.x, z: a.x - px };
    let s = Vec3 { x: b.y - a.y, y: c.y - a.y, z: a.y - py };
    let u = spec_cross(f, s);
    crate::geo::lemma_cross_orthogonal(f, s);
    assert(u.x * f.x + u.y * f.y + u.z * f.z == 0);
    assert(u.x * s.x + u.y * s.y + u.z * s.z == 0);
    lemma_hull_coord(u, a.x, b.x, c.x, px);
    lemma_hull_coord(u, a.y, b.y, c.y, py);
}

/// Coverage is exactly the inside test: the bounding box of the rasterized
/// vertices excludes no inside pixel.
pub proof fn lemma_covers_is_inside(t: Triangle<i64>, dimx: int, dimy: int, px: int, py: int)
    ensures
        ({
            let rt = t.spec_rasterized(dimx, dimy);
            covers(t, dimx, dimy, px, py) == spec_inside(rt.a, rt.b, rt.c, px, py)
        }),
{
    let rt = t.spec_rasterized(dimx, dimy);
    if spec_inside(rt.a, rt.b, rt.c, px, py) {
        lemma_inside_within_hull(rt.a, rt.b, rt.c, px, py);
    }
}

/// The interpolated depth at `(px, py)`: the barycentric weights of the
/// rasterized triangle applied to the vertices' original (pre-rasterization)
/// z values, as one truncated quotient.
pub open spec fn fill_depth(t: Triangle<i64>, dimx: int, dimy: int, px: int, py: int) -> int {
    let rt = t.spec_rasterized(dimx, dimy);
    let u = bary_u(rt.a, rt.b, rt.c, px, py);
    tdiv(t.a.z * (u.z - u.x - u.y) + t.b.z * u.y + t.c.z * u.x, u.z)
}

/// Filling `t` writes `(px, py)`: the pixel is covered and its interpolated
/// depth exceeds (is nearer than) the depth stored before the fill.
pub open spec fn fill_writes(
    t: Triangle<i64>,
    dimx: int,
    dimy: int,
    px: int,
    py: int,
    old_depth: int,
) -> bool {
    covers(t, dimx, dimy, px, py) && fill_depth(t, dimx, dimy, px, py) > old_depth
}

/// The framebuffer after filling `t`: written pixels take the color, all
/// others keep their value.  The depth test reads `zb`, the depth buffer as
/// it stood before the fill.
pub open spec fn fill_frame(
    m: Map<(int, int), (u8, u8, u8)>,
    t: Triangle<i64>,
    dimx: int,
    dimy: int,
    zb: Seq<i64>,
    color: (u8, u8, u8),
) -> Map<(int, int), (u8, u8, u8)> {
    Map::new(
        |p: (int, int)| m.dom().contains(p),
        |p: (int, int)|
            if fill_writes(t, dimx, dimy, p.0, p.1, zb[p.0 + p.1 * dimx] as int) {
                color
            } else {
                m[p]
            },
    )
}

/// The depth buffer after filling `t`: written cells take the interpolated
/// depth, all others keep their value.
pub open spec fn fill_depth_seq(zb: Seq<i64>, t: Triangle<i64>, dimx: int, dimy: int) -> Seq<i64> {
    Seq::new(
        zb.len(),
        |i: int|
            if fill_writes(t, dimx, dimy, i % dimx, i / dimx, zb[i] as int) {
                fill_depth(t, dimx, dimy, i % dimx, i / dimx) as i64
            } else {
                zb[i]
            },
    )
}

/// Wireframe coverage: some pixel of one of the three rasterized edges'
/// walks lands on `(x, y)`.
pub open spec fn wire_covers(t: Triangle<i64>, dimx: int, dimy: int, x: int, y: int) -> bool {
    let rt = t.spec_rasterized(dimx, dimy);
    ||| walk_covers(line_pixels(rt.a.x, rt.a.y, rt.b.x, rt.b.y), x, y)
    ||| walk_covers(line_pixels(rt.b.x, rt.b.y, rt.c.x, rt.c.y), x, y)
    ||| walk_covers(line_pixels(rt.a.x, rt.a.y, rt.c.x, rt.c.y), x, y)
}

/// Filling the same triangle twice with the same color leaves the buffers
/// exactly as the first fill left them: a cell the first fill wrote now
/// holds the interpolated depth itself, which the strict depth test rejects,
/// and a cell it skipped is skipped again for the same reason.
pub proof fn lemma_fill_idempotent(
    m: Map<(int, int), (u8, u8, u8)>,
    zb: Seq<i64>,
    t: Triangle<i64>,
    w: int,
    h: int,
    c: (u8, u8, u8),
)
    requires
        w >= 1,
        h >= 1,
        m.dom() == grid_dom(w, h),
        zb.len() == w * h,
    ensures
        fill_frame(fill_frame(m, t, w, h, zb, c), t, w, h, fill_depth_seq(zb, t, w, h), c)
            == fill_frame(m, t, w, h, zb, c),
        fill_depth_seq(fill_depth_seq(zb, t, w, h), t, w, h) == fill_depth_seq(zb, t, w, h),
{
    let m1 = fill_frame(m, t, w, h, zb, c);
    let zb1 = fill_depth_seq(zb, t, w, h);
    assert forall|i: int| 0 <= i < zb1.len() implies fill_depth_seq(zb1, t, w, h)[i] == zb1[i] by {
        assert(zb1[i] == (if fill_writes(t, w, h, i % w, i / w, zb[i] as int) {
            fill_depth(t, w, h, i % w, i / w) as i64
        } else {
            zb[i]
        }));
    }
    assert(fill_depth_seq(zb1, t, w, h) =~= zb1);
    assert forall|p: (int, int)| m1.dom().contains(p) implies fill_frame(m1, t, w, h, zb1, c)[p]
        == m1[p] by {
        assert(m.dom().contains(p));
        assert(0 <= p.0 < w && 0 <= p.1 < h);
        lemma_grid_index(p.0, p.1, w, h);
        let i = p.0 + p.1 * w;
        vstd::arithmetic::div_mod::lemma_fundamental_div_mod_converse(i, w, p.1, p.0);
        assert(i % w == p.0 && i / w == p.1);
        assert(zb1[i] == (if fill_writes(t, w, h, p.0, p.1, zb[i] as int) {
            fill_depth(t, w, h, p.0, p.1) as i64
        } else {
            zb[i]
        }));
    }
    assert(fill_frame(m1, t, w, h, zb1, c) =~= m1);
}

/// The z-buffer compositing rule is order-independent: as long as the two
/// triangles never interpolate the same depth at a pixel they both cover,
/// filling one and then the other yields the same framebuffer and depth
/// buffer in either order — the nearer surface wins at every pixel.
pub proof fn lemma_fill_order_independent(
    m: Map<(int, int), (u8, u8, u8)>,
    zb: Seq<i64>,
    t1: Triangle<i64>,
    t2: Triangle<i64>,
    w: int,
    h: int,
    c1: (u8, u8, u8),
    c2: (u8, u8, u8),
)
    requires
        w >= 1,
        h >= 1,
        m.dom() == grid_dom(w, h),
        zb.len() == w * h,
        forall|x: int, y: int|
            0 <= x < w && 0 <= y < h && covers(t1, w, h, x, y) && covers(t2, w, h, x, y)
                ==> fill_depth(t1, w, h, x, y) != fill_depth(t2, w, h, x, y),
        forall|x: int, y: int|
            0 <= x < w && 0 <= y < h && covers(t1, w, h, x, y) ==> in_i64(fill_depth(t1, w, h, x, y)),
        forall|x: int, y: int|
            0 <= x < w && 0 <= y < h && covers(t2, w, h, x, y) ==> in_i64(fill_depth(t2, w, h, x, y)),
    ensures
        fill_frame(fill_frame(m, t1, w, h, zb, c1), t2, w, h, fill_depth_seq(zb, t1, w, h), c2)
            == fill_frame(fill_frame(m, t2, w, h, zb, c2), t1, w, h, fill_depth_seq(zb, t2, w, h), c1),
        fill_depth_seq(fill_depth_seq(zb, t1, w, h), t2, w, h) == fill_depth_seq(
            fill_depth_seq(zb, t2, w, h),
            t1,
            w,
            h,
        ),
{
    let za = fill_depth_seq(zb, t1, w, h);
    let zc = fill_depth_seq(zb, t2, w, h);
    assert forall|i: int| 0 <= i < zb.len() implies fill_depth_seq(za, t2, w, h)[i]
        == fill_depth_seq(zc, t1, w, h)[i] by {
        vstd::arithmetic::div_mod::lemma_mod_bound(i, w);
        vstd::arithmetic::div_mod::lemma_multiply_divide_lt(i, w, h);
        lemma_fill_cell_facts(zb, t1, t2, w, h, i);
    }
    assert(fill_depth_seq(za, t2, w, h) =~= fill_depth_seq(zc, t1, w, h));
    let ma = fill_frame(m, t1, w, h, zb, c1);
    let mc = fill_frame(m, t2, w, h, zb, c2);
    assert forall|p: (int, int)| m.dom().contains(p) implies fill_frame(ma, t2, w, h, za, c2)[p]
        == fill_frame(mc, t1, w, h, zc, c1)[p] by {
        assert(0 <= p.0 < w && 0 <= p.1 < h);
        lemma_grid_index(p.0, p.1, w, h);
        let i = p.0 + p.1 * w;
        vstd::arithmetic::div_mod::lemma_fundamental_div_mod_converse(i, w, p.1, p.0);
        lemma_fill_cell_facts(zb, t1, t2, w, h, i);
        assert(ma[p] == (if fill_writes(t1, w, h, p.0, p.1, zb[i] as int) {
            c1
        } else {
            m[p]
        }));
        assert(mc[p] == (if fill_writes(t2, w, h, p.0, p.1, zb[i] as int) {
            c2
        } else {
            m[p]
        }));
    }
    assert(fill_frame(ma, t2, w, h, za, c2) =~= fill_frame(mc, t1, w, h, zc, c1));
}

/// The per-cell facts of one compositing step, spelled out for one index.
proof fn lemma_fill_cell_facts(zb: Seq<i64>, t1: Triangle<i64>, t2: Triangle<i64>, w: int, h: int, i: int)
    requires
        w >= 1,
        h >= 1,
        zb.len() == w * h,
        0 <= i < zb.len(),
        covers(t1, w, h, i % w, i / w) && covers(t2, w, h, i % w, i / w) ==> fill_depth(
            t1,
            w,
            h,
            i % w,
            i / w,
        ) != fill_depth(t2, w, h, i % w, i / w),
        covers(t1, w, h, i % w, i / w) ==> in_i64(fill_depth(t1, w, h, i % w, i / w)),
        covers(t2, w, h, i % w, i / w) ==> in_i64(fill_depth(t2, w, h, i % w, i / w)),
    ensures
        fill_depth_seq(zb, t1, w, h)[i] == (if fill_writes(t1, w, h, i % w, i / w, zb[i] as int) {
            fill_depth(t1, w, h, i % w, i / w) as i64
        } else {
            zb[i]
        }),
        fill_depth_seq(zb, t2, w, h)[i] == (if fill_writes(t2, w, h, i % w, i / w, zb[i] as int) {
            fill_depth(t2, w, h, i % w, i / w) as i64
        } else {
            zb[i]
        }),
        fill_depth_seq(fill_depth_seq(zb, t1, w, h), t2, w, h)[i] == fill_depth_seq(
            fill_depth_seq(zb, t2, w, h),
            t1,
            w,
            h,
        )[i],
{
    let px = i % w;
    let py = i / w;
    let za = fill_depth_seq(zb, t1, w, h);
    let zc = fill_depth_seq(zb, t2, w, h);
    assert(za[i] == (if fill_writes(t1, w, h, px, py, zb[i] as int) {
        fill_depth(t1, w, h, px, py) as i64
    } else {
        zb[i]
    }));
    assert(zc[i] == (if fill_writes(t2, w, h, px, py, zb[i] as int) {
        fill_depth(t2, w, h, px, py) as i64
    } else {
        zb[i]
    }));
    assert(fill_depth_seq(za, t2, w, h)[i] == (if fill_writes(t2, w, h, px, py, za[i] as int) {
        fill_depth(t2, w, h, px, py) as i64
    } else {
        za[i]
    }));
    assert(fill_depth_seq(zc, t1, w, h)[i] == (if fill_writes(t1, w, h, px, py, zc[i] as int) {
        fill_depth(t1, w, h, px, py) as i64
    } else {
        zc[i]
    }));
}

/// One cell's state during the fill: written if already processed and due a
/// write, untouched otherwise.
pub open spec fn fill_cell_ok(
    t: Triangle<i64>,
    w: int,
    m0: Map<(int, int), (u8, u8, u8)>,
    zb0: Seq<i64>,
    m: Map<(int, int), (u8, u8, u8)>,
    zb: Seq<i64>,
    h: int,
    color: (u8, u8, u8),
    px: int,
    py: int,
    processed: bool,
) -> bool {
    let idx = px + py * w;
    if processed && fill_writes(t, w, h, px, py, zb0[idx] as int) {
        m[(px, py)] == color && zb[idx] == fill_depth(t, w, h, px, py)
    } else {
        m[(px, py)] == m0[(px, py)] && zb[idx] == zb0[idx]
    }
}

/// The barycentric cross product of rasterized (raster-bounded) coordinates
/// stays comfortably inside `i64`.
proof fn lemma_fill_u_bounds(a: Vec3<int>, b: Vec3<int>, c: Vec3<int>, px: int, py: int)
    requires
        0 <= a.x < 32768 && 0 <= a.y < 32768,
        0 <= b.x < 32768 && 0 <= b.y < 32768,
        0 <= c.x < 32768 && 0 <= c.y < 32768,
        0 <= px < 32768 && 0 <= py < 32768,
    ensures
        ({
            let u = bary_u(a, b, c, px, py);
            abs(u.x) <= 0x1_0000_0000 && abs(u.y) <= 0x1_0000_0000 && abs(u.z) <= 0x1_0000_0000
        }),
{
    let f = Vec3 { x: b.x - a.x, y: c.x - a.x, z: a.x - px };
    let s = Vec3 { x: b.y - a.y, y: c.y - a.y, z: a.y - py };
    assert(-0x8000_0000 <= f.y * s.z - f.z * s.y <= 0x8000_0000 && -0x8000_0000 <= f.z * s.x - f.x
        * s.z <= 0x8000_0000 && -0x8000_0000 <= f.x * s.y - f.y * s.x <= 0x8000_0000)
        by (nonlinear_arith)
        requires
            -32768 <= f.x <= 32768 && -32768 <= f.y <= 32768 && -32768 <= f.z <= 32768 && -32768
                <= s.x <= 32768 && -32768 <= s.y <= 32768 && -32768 <= s.z <= 32768,
    ;
}

/// The magnitude of a truncated quotient is at most `m` once the dividend is
/// within `m` times the divisor.
pub proof fn lemma_tdiv_magnitude(a: int, b: int, m: int)
    requires
        b != 0,
        m >= 0,
        abs(a) <= m * abs(b),
    ensures
        abs(tdiv(a, b)) <= m,
{
    vstd::arithmetic::div_mod::lemma_div_is_ordered(abs(a) as int, m * abs(b), abs(b) as int);
    vstd::arithmetic::div_mod::lemma_div_by_multiple(m, abs(b) as int);
}

/// The interpolated depth is a convex combination of the three vertex
/// depths, so it stays within their magnitude bound.
pub proof fn lemma_depth_in_limit(u: Vec3<int>, za: int, zb: int, zc: int, lim: int)
    requires
        lim >= 0,
        abs(za) <= lim,
        abs(zb) <= lim,
        abs(zc) <= lim,
        u.z != 0,
        u.z > 0 ==> u.x >= 0 && u.y >= 0 && u.x + u.y <= u.z,
        u.z < 0 ==> u.x <= 0 && u.y <= 0 && u.x + u.y >= u.z,
    ensures
        abs(tdiv(za * (u.z - u.x - u.y) + zb * u.y + zc * u.x, u.z)) <= lim,
{
    let num = za * (u.z - u.x - u.y) + zb * u.y + zc * u.x;
    if u.z > 0 {
        assert(-(lim * u.z) <= za * (u.z - u.x - u.y) + zb * u.y + zc * u.x <= lim * u.z)
            by (nonlinear_arith)
            requires
                lim >= 0 && -lim <= za <= lim && -lim <= zb <= lim && -lim <= zc <= lim && u.x >= 0
                    && u.y >= 0 && u.x + u.y <= u.z && u.z > 0,
        ;
        assert(abs(num) <= lim * abs(u.z) as int);
    } else {
        assert(-(lim * (-u.z)) <= za * (u.z - u.x - u.y) + zb * u.y + zc * u.x <= lim * (-u.z))
            by (nonlinear_arith)
            requires
                lim >= 0 && -lim <= za <= lim && -lim <= zb <= lim && -lim <= zc <= lim && u.x <= 0
                    && u.y <= 0 && u.x + u.y >= u.z && u.z < 0,
        ;
        assert(abs(num) <= lim * abs(u.z) as int);
    }
    lemma_tdiv_magnitude(num, u.z, lim);
}

/// The rasterized coordinate lies inside `[0, dim - 1]`.
pub proof fn lemma_raster_coord_clamped(c: int, dim: int)
    requires
        dim >= 1,
    ensures
        0 <= spec_raster_coord(c, dim) < dim,
{
}

/// Within the coordinate limit, the affine rasterization map cannot
/// overflow `i64`.
proof fn lemma_raster_in_range(c: int, dim: int)
    requires
        abs(c) <= COORD_LIMIT,
        1 <= dim <= i32::MAX,
    ensures
        in_i64(c + SCALE),
        in_i64((c + SCALE) * dim),
{
    assert((c + SCALE) * dim <= i64::MAX && -((c + SCALE) * dim) <= i64::MAX) by (nonlinear_arith)
        requires
            -(COORD_LIMIT + SCALE) <= c + SCALE <= COORD_LIMIT + SCALE && 1 <= dim <= i32::MAX,
    ;
}

/// Every product and difference in the barycentric cross construction fits
/// in `i64` when all inputs respect the coordinate limit.
proof fn lemma_bary_u_bounds(a: Vec3<int>, b: Vec3<int>, c: Vec3<int>, px: int, py: int)
    requires
        coord_limited(a),
        coord_limited(b),
        coord_limited(c),
        abs(px) <= COORD_LIMIT,
        abs(py) <= COORD_LIMIT,
    ensures
        ({
            let f = Vec3 { x: b.x - a.x, y: c.x - a.x, z: a.x - px };
            let s = Vec3 { x: b.y - a.y, y: c.y - a.y, z: a.y - py };
            cross_in_range(f, s)
        }),
{
    let f = Vec3 { x: b.x - a.x, y: c.x - a.x, z: a.x - px };
    let s = Vec3 { x: b.y - a.y, y: c.y - a.y, z: a.y - py };
    lemma_small_products(f, s);
}

/// Six products of factors within twice the coordinate limit all stay well
/// inside `i64`, as do their pairwise differences.
proof fn lemma_small_products(f: Vec3<int>, s: Vec3<int>)
    requires
        abs(f.x) <= 2 * COORD_LIMIT,
        abs(f.y) <= 2 * COORD_LIMIT,
        abs(f.z) <= 2 * COORD_LIMIT,
        abs(s.x) <= 2 * COORD_LIMIT,
        abs(s.y) <= 2 * COORD_LIMIT,
        abs(s.z) <= 2 * COORD_LIMIT,
    ensures
        cross_in_range(f, s),
        vec3_limited(spec_cross(f, s)),
{
    assert(-1000000000000000000 <= f.x * s.y <= 1000000000000000000 && -1000000000000000000 <= f.y
        * s.x <= 1000000000000000000 && -1000000000000000000 <= f.y * s.z <= 1000000000000000000
        && -1000000000000000000 <= f.z * s.y <= 1000000000000000000 && -1000000000000000000 <= f.z
        * s.x <= 1000000000000000000 && -1000000000000000000 <= f.x * s.z <= 1000000000000000000)
        by (nonlinear_arith)
        requires
            -1000000000 <= f.x <= 1000000000 && -1000000000 <= f.y <= 1000000000 && -1000000000
                <= f.z <= 1000000000 && -1000000000 <= s.x <= 1000000000 && -1000000000 <= s.y
                <= 1000000000 && -1000000000 <= s.z <= 1000000000,
    ;
}

/// The edge difference vectors and their cross product stay within the
/// ranges that `cross` and `normalize` require.
pub proof fn lemma_edge_cross_bounds(a: Vec3<int>, b: Vec3<int>, c: Vec3<int>)
    requires
        coord_limited(a),
        coord_limited(b),
        coord_limited(c),
    ensures
        cross_in_range(spec_sub3(c, a), spec_sub3(b, a)),
        vec3_limited(spec_cross(spec_sub3(c, a), spec_sub3(b, a))),
{
    lemma_small_products(spec_sub3(c, a), spec_sub3(b, a));
}

} // verus!
