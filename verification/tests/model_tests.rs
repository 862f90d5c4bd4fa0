use rasterizer::buffer::{DepthBuffer, Frame, DEPTH_EMPTY};
use rasterizer::geo::{Vec3, SCALE};
use rasterizer::model::{raster_coord, Line, LineIterator, Triangle};

#[test]
fn triangle_create() {
    let a = Vec3::<i64>::new(SCALE, SCALE, 0);
    let b = Vec3::<i64>::new(SCALE, 2 * SCALE, 0);
    let c = Vec3::<i64>::new(0, 2 * SCALE, 0);
    let _triangle = Triangle::new(a, b, c);
}

#[test]
fn line_create() {
    let a = Vec3::<i64>::new(SCALE, SCALE, 0);
    let b = Vec3::<i64>::new(SCALE, 2 * SCALE, 0);
    let _line = Line::new(a, b);
}

#[test]
fn triangle_vertices() {
    let a = Vec3::<i64>::new(SCALE, SCALE, 0);
    let b = Vec3::<i64>::new(SCALE, 2 * SCALE, 0);
    let c = Vec3::<i64>::new(0, 2 * SCALE, 0);
    let triangle = Triangle::new(a, b, c);
    let verts = triangle.vertices();
    assert_eq!(verts[0], Vec3::<i64>::new(SCALE, SCALE, 0));
    assert_eq!(verts[1], Vec3::<i64>::new(SCALE, 2 * SCALE, 0));
    assert_eq!(verts[2], Vec3::<i64>::new(0, 2 * SCALE, 0));
}

#[test]
fn line_points() {
    let a = Vec3::<i32>::new(1, 2, 3);
    let b = Vec3::<i32>::new(4, 5, 6);
    let line = Line::new(a, b);
    let points = line.vertices();
    assert_eq!(points[0], Vec3::<i32>::new(1, 2, 3));
    assert_eq!(points[1], Vec3::<i32>::new(4, 5, 6));
}

#[test]
fn line_iterate() {
    let line = Line::new(Vec3::<u64>::new(0, 0, 0), Vec3::<u64>::new(9, 9, 0));
    let mut line_iter = LineIterator::new(&line);
    let mut count = 0usize;
    while let Some(pixel) = line_iter.next() {
        assert_eq!(pixel, Vec3::<i32>::new(count as i32, count as i32, 0));
        count += 1;
    }
    assert_eq!(count, 10);
}

#[test]
fn line_pixel_symmetry() {
    // the walk of (0,0)-(9,9) is the ten diagonal pixels, in either order
    let fwd = Line::new(Vec3::<u64>::new(0, 0, 0), Vec3::<u64>::new(9, 9, 0));
    let rev = Line::new(Vec3::<u64>::new(9, 9, 0), Vec3::<u64>::new(0, 0, 0));
    let fwd_pixels = fwd.pixels();
    let rev_pixels = rev.pixels();
    assert_eq!(fwd_pixels.len(), 10);
    assert_eq!(fwd_pixels, rev_pixels);
    for (i, p) in fwd_pixels.iter().enumerate() {
        assert_eq!(*p, Vec3::<i32>::new(i as i32, i as i32, 0));
    }
}

#[test]
fn line_steep_symmetry() {
    // a steep line walks the vertical axis; both orders agree
    let fwd = Line::new(Vec3::<i32>::new(2, 0, 0), Vec3::<i32>::new(4, 9, 0));
    let rev = Line::new(Vec3::<i32>::new(4, 9, 0), Vec3::<i32>::new(2, 0, 0));
    let fwd_pixels = fwd.pixels();
    assert_eq!(fwd_pixels.len(), 10);
    assert_eq!(fwd_pixels, rev.pixels());
}

#[test]
fn line_inside() {
    let line = Line::new(Vec3::<i32>::new(0, 0, 0), Vec3::<i32>::new(9, 9, 0));
    assert!(line.inside(&Vec3::<i32>::new(4, 4, 0)));
    assert!(!line.inside(&Vec3::<i32>::new(4, 5, 0)));
}

#[test]
fn line_bounding_box() {
    let line = Line::new(Vec3::<i64>::new(1, 2, 3), Vec3::<i64>::new(4, 5, 6));
    let bb = line.bounding_box(10, 10);
    assert_eq!(bb.vertices()[0], Vec3::<i32>::new(1, 2, 3));
    assert_eq!(bb.vertices()[1], Vec3::<i32>::new(4, 5, 6));
}

#[test]
fn raster_coord_clamps() {
    // the affine map sends -1 to 0 and +1 to the clamped last pixel
    assert_eq!(raster_coord(-SCALE, 8), 0);
    assert_eq!(raster_coord(SCALE, 8), 7);
    assert_eq!(raster_coord(0, 8), 4);
    // out-of-range coordinates clamp instead of indexing outside
    assert_eq!(raster_coord(-2 * SCALE, 8), 0);
    assert_eq!(raster_coord(2 * SCALE, 8), 7);
}

#[test]
fn line_rasterize() {
    let line = Line::new(Vec3::<i64>::new(-SCALE, -SCALE, 0), Vec3::<i64>::new(SCALE, SCALE, 0));
    let rast = line.rasterize(8, 8);
    assert_eq!(rast.vertices()[0], Vec3::<u32>::new(0, 0, 0));
    assert_eq!(rast.vertices()[1], Vec3::<u32>::new(7, 7, 0));
}

#[test]
fn inside_triangle() {
    let a = Vec3::<i64>::new(0, 0, 0);
    let b = Vec3::<i64>::new(SCALE, 0, 0);
    let c = Vec3::<i64>::new(SCALE, SCALE, 0);
    let triangle = Triangle::new(a, b, c);
    let not_inside = Vec3::<i64>::new(-SCALE / 10, 0, 0);
    let inside = Vec3::<i64>::new(9 * SCALE / 10, SCALE / 10, 0);
    assert!(!triangle.inside(&not_inside));
    assert!(triangle.inside(&inside));
}

#[test]
fn barycentric_exactness() {
    let a = Vec3::<i64>::new(0, 0, 0);
    let b = Vec3::<i64>::new(SCALE, 0, 0);
    let c = Vec3::<i64>::new(SCALE, SCALE, 0);
    let triangle = Triangle::new(a, b, c);
    // the vertex a itself carries the full first weight
    assert_eq!(triangle.barycentric(&a), Vec3::<i64>::new(SCALE, 0, 0));
    // (0.9, 0.1): weights (0.1, 0.1, 0.8), exactly representable
    let p = Vec3::<i64>::new(9 * SCALE / 10, SCALE / 10, 0);
    assert_eq!(
        triangle.barycentric(&p),
        Vec3::<i64>::new(SCALE / 10, SCALE / 10, 8 * SCALE / 10)
    );
}

#[test]
fn barycentric_degenerate_sentinel() {
    // collinear vertices: the sentinel always fails the inside test
    let a = Vec3::<i64>::new(0, 0, 0);
    let b = Vec3::<i64>::new(SCALE / 2, SCALE / 2, 0);
    let c = Vec3::<i64>::new(SCALE, SCALE, 0);
    let triangle = Triangle::new(a, b, c);
    let p = Vec3::<i64>::new(SCALE / 2, SCALE / 2, 0);
    assert_eq!(triangle.barycentric(&p), Vec3::<i64>::new(-SCALE, SCALE, SCALE));
    assert!(!triangle.inside(&p));
}

#[test]
fn triangle_normal_winding() {
    // flipping the winding order flips the normal's sign
    let a = Vec3::<i64>::new(0, 0, 0);
    let b = Vec3::<i64>::new(SCALE, 0, 0);
    let c = Vec3::<i64>::new(0, SCALE, 0);
    let n1 = Triangle::new(a, b, c).normal();
    let n2 = Triangle::new(a, c, b).normal();
    assert_eq!(n1, Vec3::<i64>::new(0, 0, -SCALE));
    assert_eq!(n2, n1.mul(-1));
}

#[test]
fn triangle_bounding_box() {
    let a = Vec3::<i64>::new(-SCALE, -SCALE, 0);
    let b = Vec3::<i64>::new(SCALE, -SCALE, 0);
    let c = Vec3::<i64>::new(SCALE, SCALE, 0);
    let triangle = Triangle::new(a, b, c);
    let bb = triangle.bounding_box(8, 8);
    assert_eq!(bb.vertices()[0], Vec3::<i32>::new(0, 0, 0));
    assert_eq!(bb.vertices()[1], Vec3::<i32>::new(7, 7, 0));
}

fn full_square_triangle(z: i64) -> Triangle<i64> {
    // covers the lower-right half of the raster at uniform depth z
    Triangle::new(
        Vec3::<i64>::new(-SCALE, -SCALE, z),
        Vec3::<i64>::new(SCALE, -SCALE, z),
        Vec3::<i64>::new(SCALE, SCALE, z),
    )
}

fn read_buffers(img: &Frame, zbuf: &DepthBuffer, w: u32, h: u32) -> Vec<((u8, u8, u8), i64)> {
    let mut out = Vec::new();
    for y in 0..h {
        for x in 0..w {
            out.push((img.get_pixel(x, y), zbuf.get(x, y)));
        }
    }
    out
}

#[test]
fn depth_order_independence() {
    // nearer depth wins at every pixel, whichever triangle is drawn first
    let t1 = full_square_triangle(SCALE / 2);
    let t2 = full_square_triangle(9 * SCALE / 10);
    let c1 = [10u8, 20, 30];
    let c2 = [40u8, 50, 60];

    let mut img_a = Frame::new(4, 4);
    let mut zb_a = DepthBuffer::new(4, 4);
    t1.draw_filled(&mut img_a, &c1, &mut zb_a);
    t2.draw_filled(&mut img_a, &c2, &mut zb_a);

    let mut img_b = Frame::new(4, 4);
    let mut zb_b = DepthBuffer::new(4, 4);
    t2.draw_filled(&mut img_b, &c2, &mut zb_b);
    t1.draw_filled(&mut img_b, &c1, &mut zb_b);

    assert_eq!(read_buffers(&img_a, &zb_a, 4, 4), read_buffers(&img_b, &zb_b, 4, 4));
    // a pixel covered by both ends with the nearer color and depth
    assert_eq!(img_a.get_pixel(2, 1), (40, 50, 60));
    assert_eq!(zb_a.get(2, 1), 9 * SCALE / 10);
}

#[test]
fn fill_idempotent() {
    // filling the same triangle twice leaves the buffers unchanged
    let t = full_square_triangle(SCALE / 2);
    let c = [10u8, 20, 30];
    let mut img = Frame::new(4, 4);
    let mut zb = DepthBuffer::new(4, 4);
    t.draw_filled(&mut img, &c, &mut zb);
    let first = read_buffers(&img, &zb, 4, 4);
    t.draw_filled(&mut img, &c, &mut zb);
    assert_eq!(read_buffers(&img, &zb, 4, 4), first);
}

#[test]
fn degenerate_fill_is_noop() {
    // a zero-area triangle never passes the inside test: no pixel written
    let a = Vec3::<i64>::new(0, 0, 0);
    let b = Vec3::<i64>::new(SCALE / 2, SCALE / 2, 0);
    let c = Vec3::<i64>::new(SCALE, SCALE, 0);
    let t = Triangle::new(a, b, c);
    let mut img = Frame::new(4, 4);
    let mut zb = DepthBuffer::new(4, 4);
    t.draw_filled(&mut img, &[255, 255, 255], &mut zb);
    for y in 0..4 {
        for x in 0..4 {
            assert_eq!(img.get_pixel(x, y), (0, 0, 0));
            assert_eq!(zb.get(x, y), DEPTH_EMPTY);
        }
    }
}

#[test]
fn line_draw_writes_pixels() {
    let mut img = Frame::new(8, 8);
    let line = Line::new(Vec3::<i32>::new(0, 0, 0), Vec3::<i32>::new(7, 7, 0));
    line.draw(&mut img, &[9, 8, 7]);
    for i in 0..8 {
        assert_eq!(img.get_pixel(i, i), (9, 8, 7));
    }
    assert_eq!(img.get_pixel(0, 1), (0, 0, 0));
}

#[test]
fn triangle_wireframe_draw() {
    let t = full_square_triangle(0);
    let mut img = Frame::new(8, 8);
    t.draw(&mut img, &[1, 2, 3]);
    // the corners of the rasterized edges are drawn
    assert_eq!(img.get_pixel(0, 0), (1, 2, 3));
    assert_eq!(img.get_pixel(7, 0), (1, 2, 3));
    assert_eq!(img.get_pixel(7, 7), (1, 2, 3));
    // a pixel strictly inside is not
    assert_eq!(img.get_pixel(5, 2), (0, 0, 0));
}
