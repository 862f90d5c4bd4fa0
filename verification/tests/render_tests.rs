use rasterizer::buffer::{DepthBuffer, Frame, DEPTH_EMPTY};
use rasterizer::geo::{Vec3, SCALE};
use rasterizer::render::{Obj, ObjRenderer, Scene};

fn square_mesh(z: i64) -> Obj {
    // two faces covering the whole normalized square at uniform depth z,
    // wound so their normals face the light along negative z
    let vertices = vec![
        Vec3::<i64>::new(-SCALE, -SCALE, z),
        Vec3::<i64>::new(SCALE, -SCALE, z),
        Vec3::<i64>::new(SCALE, SCALE, z),
        Vec3::<i64>::new(-SCALE, SCALE, z),
    ];
    let faces = vec![Vec3::<i32>::new(0, 1, 2), Vec3::<i32>::new(0, 2, 3)];
    Obj::new(vertices, faces)
}

#[test]
fn obj_accessors() {
    let obj = square_mesh(0);
    assert_eq!(obj.nvert, 4);
    assert_eq!(obj.nfaces, 2);
    assert_eq!(obj.vert(1), Vec3::<i64>::new(SCALE, -SCALE, 0));
    assert_eq!(obj.face(0), Vec3::<i32>::new(0, 1, 2));
}

#[test]
fn obj_get_triangle() {
    let obj = square_mesh(0);
    let face = obj.face(0);
    let t = obj.get_triangle(&face);
    assert_eq!(t.vertices()[0], Vec3::<i64>::new(-SCALE, -SCALE, 0));
    assert_eq!(t.vertices()[1], Vec3::<i64>::new(SCALE, -SCALE, 0));
    assert_eq!(t.vertices()[2], Vec3::<i64>::new(SCALE, SCALE, 0));
}

#[test]
fn frame_pixel_roundtrip() {
    let mut img = Frame::new(3, 2);
    assert_eq!(img.dimensions(), (3, 2));
    assert_eq!(img.get_pixel(2, 1), (0, 0, 0));
    img.put_pixel(2, 1, &[7, 8, 9]);
    assert_eq!(img.get_pixel(2, 1), (7, 8, 9));
    assert_eq!(img.get_pixel(1, 1), (0, 0, 0));
}

#[test]
fn depth_buffer_roundtrip() {
    let mut zb = DepthBuffer::new(3, 2);
    assert_eq!(zb.get(0, 0), DEPTH_EMPTY);
    zb.set(2, 1, 42);
    assert_eq!(zb.get(2, 1), 42);
    assert_eq!(zb.get(2, 0), DEPTH_EMPTY);
}

#[test]
fn draw_lit_full_intensity() {
    // a flat square facing the light exactly is drawn at full white
    let obj = square_mesh(0);
    let mut img = Frame::new(8, 8);
    let mut zb = DepthBuffer::new(8, 8);
    let renderer = ObjRenderer::new(&obj);
    renderer.draw_lit(&mut img, Vec3::<i64>::new(0, 0, -SCALE), &mut zb);
    // every raster pixel is covered by one of the two faces
    assert_eq!(img.get_pixel(5, 2), (255, 255, 255));
    assert_eq!(img.get_pixel(2, 5), (255, 255, 255));
    assert_eq!(zb.get(5, 2), 0);
}

#[test]
fn draw_lit_culls_back_faces() {
    // flip the winding: the normal points away from the light, both faces
    // are culled and nothing is drawn
    let vertices = vec![
        Vec3::<i64>::new(-SCALE, -SCALE, 0),
        Vec3::<i64>::new(SCALE, -SCALE, 0),
        Vec3::<i64>::new(SCALE, SCALE, 0),
    ];
    let faces = vec![Vec3::<i32>::new(0, 2, 1)];
    let obj = Obj::new(vertices, faces);
    let mut img = Frame::new(8, 8);
    let mut zb = DepthBuffer::new(8, 8);
    ObjRenderer::new(&obj).draw_lit(&mut img, Vec3::<i64>::new(0, 0, -SCALE), &mut zb);
    for y in 0..8 {
        for x in 0..8 {
            assert_eq!(img.get_pixel(x, y), (0, 0, 0));
            assert_eq!(zb.get(x, y), DEPTH_EMPTY);
        }
    }
}

#[test]
fn draw_lit_oblique_intensity() {
    // a light at 45 degrees within the xz plane: intensity 1/sqrt(2)
    let obj = square_mesh(0);
    let mut img = Frame::new(8, 8);
    let mut zb = DepthBuffer::new(8, 8);
    let light = Vec3::<i64>::new(SCALE, 0, -SCALE).normalize();
    ObjRenderer::new(&obj).draw_lit(&mut img, light, &mut zb);
    let (r, g, b) = img.get_pixel(5, 2);
    assert_eq!(r, g);
    assert_eq!(g, b);
    // 255 / sqrt(2), within the fixed-point epsilon
    assert!(179 <= r && r <= 181, "intensity {} out of range", r);
}

#[test]
fn draw_wireframe_edges() {
    let obj = square_mesh(0);
    let mut img = Frame::new(8, 8);
    ObjRenderer::new(&obj).draw_wireframe(&mut img, &[5, 6, 7]);
    assert_eq!(img.get_pixel(0, 0), (5, 6, 7));
    assert_eq!(img.get_pixel(7, 7), (5, 6, 7));
    assert_eq!(img.get_pixel(5, 1), (0, 0, 0));
}

#[test]
fn scene_draw_composites() {
    // the nearer mesh hides the farther one, regardless of insertion order
    let far = square_mesh(SCALE / 2);
    let near = square_mesh(9 * SCALE / 10);
    let mut scene = Scene::new(Vec::new(), Frame::new(8, 8));
    scene.add_object(far);
    scene.add_object(near);
    scene.light_direction(0, 0, -1);
    scene.draw();
    assert_eq!(scene.img.get_pixel(4, 4), (255, 255, 255));
    assert_eq!(scene.zbuf.get(4, 4), 9 * SCALE / 10);
}

#[test]
fn scene_light_direction_normalizes() {
    let mut scene = Scene::new(Vec::new(), Frame::new(4, 4));
    scene.light_direction(0, 0, -5);
    assert_eq!(scene.light_dir, Vec3::<i64>::new(0, 0, -SCALE));
    scene.light_direction(3, 0, -4);
    assert_eq!(scene.light_dir, Vec3::<i64>::new(3 * SCALE / 5, 0, -4 * SCALE / 5));
}
