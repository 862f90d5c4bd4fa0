//! The render loop: a mesh of vertices and faces, flat per-face shading
//! against a fixed light direction, back-face culling, and the scene that
//! composites every mesh into one framebuffer through the depth buffer.

use crate::buffer::{frame_dims, frame_pixels, grid_dom, rgb_of, DepthBuffer, Frame};
use crate::geo::{
    div_trunc, lemma_dot_self_nonneg, spec_cross, spec_dot3, spec_sub3, tdiv, Vec3, SCALE,
};
use crate::model::{
    coord_limited, covers, fill_depth, fill_depth_seq, fill_frame, fill_writes, spec_tri_normal,
    tri_limited, Line, Triangle, DIM_LIMIT,
};
use vstd::math::abs;
use vstd::prelude::*;

verus! {

/// A triangulated mesh: vertex positions in fixed point and zero-based
/// index triples.  The engine does not validate indices; callers promise
/// them in range (see [`obj_renderable`]).
pub struct Obj {
    pub nvert: usize,
    pub nfaces: usize,
    pub vertices: Vec<Vec3<i64>>,
    pub faces: Vec<Vec3<i32>>,
}

/// The counts match the arrays.
pub open spec fn obj_wf(o: Obj) -> bool {
    &&& o.nvert == o.vertices@.len()
    &&& o.nfaces == o.faces@.len()
}

/// Every vertex within the coordinate limit, every face index in range.
pub open spec fn obj_renderable(o: Obj) -> bool {
    &&& forall|i: int|
        0 <= i < o.vertices@.len() ==> coord_limited(#[trigger] o.vertices@[i].as_math())
    &&& forall|i: int|
        0 <= i < o.faces@.len() ==> {
            let f = #[trigger] o.faces@[i];
            &&& 0 <= f.x < o.vertices@.len()
            &&& 0 <= f.y < o.vertices@.len()
            &&& 0 <= f.z < o.vertices@.len()
        }
}

/// The triangle a face stands for: the three indexed vertices with the
/// derived edges.
pub open spec fn obj_face_tri(o: Obj, k: int) -> Triangle<i64> {
    let f = o.faces@[k];
    let a = o.vertices@[f.x as int];
    let b = o.vertices@[f.y as int];
    let c = o.vertices@[f.z as int];
    Triangle {
        a,
        b,
        c,
        edges: [
            Line { start: a, end: b },
            Line { start: b, end: c },
            Line { start: a, end: c },
        ],
    }
}

impl Obj {
    pub fn new(vertices: Vec<Vec3<i64>>, faces: Vec<Vec3<i32>>) -> (o: Obj)
        ensures
            o.vertices == vertices,
            o.faces == faces,
            obj_wf(o),
    {
        let nvert = vertices.len();
        let nfaces = faces.len();
        Obj { nvert, nfaces, vertices, faces }
    }

    /// The index triple of face `i`.
    pub fn face(&self, i: usize) -> (f: Vec3<i32>)
        requires
            i < self.faces@.len(),
        ensures
            f == self.faces@[i as int],
    {
        self.faces[i]
    }

    /// The position of vertex `i`.
    pub fn vert(&self, i: usize) -> (v: Vec3<i64>)
        requires
            i < self.vertices@.len(),
        ensures
            v == self.vertices@[i as int],
    {
        self.vertices[i]
    }

    /// Builds the triangle of a face from its three indexed vertices.
    pub fn get_triangle(&self, face: &Vec3<i32>) -> (t: Triangle<i64>)
        requires
            0 <= face.x < self.vertices@.len(),
            0 <= face.y < self.vertices@.len(),
            0 <= face.z < self.vertices@.len(),
        ensures
            t.a == self.vertices@[face.x as int],
            t.b == self.vertices@[face.y as int],
            t.c == self.vertices@[face.z as int],
            t.edges[0] == (Line { start: t.a, end: t.b }),
            t.edges[1] == (Line { start: t.b, end: t.c }),
            t.edges[2] == (Line { start: t.a, end: t.c }),
    {
        let af = self.vertices[face.x as usize];
        let bf = self.vertices[face.y as usize];
        let cf = self.vertices[face.z as usize];
        Triangle::new(af, bf, cf)
    }
}

/// The shading dot product of a face: the unit normal against the (unit)
/// light direction, carrying scale `SCALE * SCALE`.
pub open spec fn face_normal_dot(t: Triangle<i64>, light: Vec3<i64>) -> int {
    spec_dot3(spec_tri_normal(t.a.as_math(), t.b.as_math(), t.c.as_math()), light.as_math())
}

/// The face is skipped: its edge cross product is zero (degenerate, no
/// normal) or its shading intensity is not positive (back-facing or
/// unlit).
pub open spec fn face_culled(t: Triangle<i64>, light: Vec3<i64>) -> bool {
    let cr = spec_cross(
        spec_sub3(t.c.as_math(), t.a.as_math()),
        spec_sub3(t.b.as_math(), t.a.as_math()),
    );
    cr == (Vec3 { x: 0int, y: 0int, z: 0int }) || face_normal_dot(t, light) <= 0
}

/// The flat grayscale of a lit face: `255` times the intensity, rounded to
/// the nearest step and saturated at `255`, on all three channels.
pub open spec fn face_color(t: Triangle<i64>, light: Vec3<i64>) -> (u8, u8, u8) {
    let g = tdiv(255 * face_normal_dot(t, light) + (SCALE * SCALE) / 2, SCALE * SCALE);
    let gc: u8 = if g > 255 {
        255u8
    } else {
        g as u8
    };
    (gc, gc, gc)
}

/// The buffers after the first `k` faces of a mesh have been shaded, culled
/// or filled.
pub open spec fn lit_pass(
    m: Map<(int, int), (u8, u8, u8)>,
    zb: Seq<i64>,
    o: Obj,
    light: Vec3<i64>,
    w: int,
    h: int,
    k: nat,
) -> (Map<(int, int), (u8, u8, u8)>, Seq<i64>)
    decreases k,
{
    if k == 0 {
        (m, zb)
    } else {
        let prev = lit_pass(m, zb, o, light, w, h, (k - 1) as nat);
        let t = obj_face_tri(o, k - 1);
        if face_culled(t, light) {
            prev
        } else {
            (
                fill_frame(prev.0, t, w, h, prev.1, face_color(t, light)),
                fill_depth_seq(prev.1, t, w, h),
            )
        }
    }
}

/// Renders one mesh, borrowed for the duration of a pass.
pub struct ObjRenderer<'a> {
    pub obj: &'a Obj,
}

impl<'a> ObjRenderer<'a> {
    pub fn new(obj: &'a Obj) -> (r: ObjRenderer<'a>)
        ensures
            r.obj == obj,
    {
        ObjRenderer { obj }
    }

    /// Flat-shades every face against the light direction: a face whose
    /// normal is undefined (degenerate) or whose intensity is not positive
    /// is culled; the rest are filled with their grayscale through the
    /// depth test, in face order.
    pub fn draw_lit(&self, img: &mut Frame, light_dir: Vec3<i64>, zbuf: &mut DepthBuffer)
        requires
            obj_wf(*self.obj),
            obj_renderable(*self.obj),
            abs(light_dir.x as int) <= SCALE,
            abs(light_dir.y as int) <= SCALE,
            abs(light_dir.z as int) <= SCALE,
            ({
                let w = frame_dims(*old(img)).0;
                let h = frame_dims(*old(img)).1;
                &&& 1 <= w <= DIM_LIMIT
                &&& 1 <= h <= DIM_LIMIT
                &&& frame_pixels(*old(img)).dom() == grid_dom(w as int, h as int)
                &&& old(zbuf).wf()
                &&& old(zbuf).width == w
                &&& old(zbuf).height == h
            }),
        ensures
            frame_dims(*final(img)) == frame_dims(*old(img)),
            frame_pixels(*final(img)).dom() == frame_pixels(*old(img)).dom(),
            final(zbuf).wf(),
            final(zbuf).width == old(zbuf).width,
            final(zbuf).height == old(zbuf).height,
            ({
                let endstate = lit_pass(
                    frame_pixels(*old(img)),
                    old(zbuf).data@,
                    *self.obj,
                    light_dir,
                    frame_dims(*old(img)).0 as int,
                    frame_dims(*old(img)).1 as int,
                    self.obj.faces@.len(),
                );
                frame_pixels(*final(img)) == endstate.0 && final(zbuf).data@ == endstate.1
            }),
    {
        let dims = img.dimensions();
        let w = dims.0;
        let h = dims.1;
        let ghost m0 = frame_pixels(*img);
        let ghost zb0 = zbuf.data@;
        let n = self.obj.nfaces;
        proof {
            assert(lit_pass(m0, zb0, *self.obj, light_dir, w as int, h as int, 0) == (m0, zb0));
        }
        let mut k: usize = 0;
        while k < n
            invariant
                obj_wf(*self.obj),
                obj_renderable(*self.obj),
                abs(light_dir.x as int) <= SCALE,
                abs(light_dir.y as int) <= SCALE,
                abs(light_dir.z as int) <= SCALE,
                n == self.obj.faces@.len(),
                0 <= k <= n,
                w == frame_dims(*old(img)).0,
                h == frame_dims(*old(img)).1,
                1 <= w <= DIM_LIMIT,
                1 <= h <= DIM_LIMIT,
                m0 == frame_pixels(*old(img)),
                zb0 == old(zbuf).data@,
                m0.dom() == grid_dom(w as int, h as int),
                frame_dims(*img) == frame_dims(*old(img)),
                frame_pixels(*img).dom() == m0.dom(),
                zbuf.wf(),
                zbuf.width == w,
                zbuf.height == h,
                (frame_pixels(*img), zbuf.data@) == lit_pass(
                    m0,
                    zb0,
                    *self.obj,
                    light_dir,
                    w as int,
                    h as int,
                    k as nat,
                ),
            decreases n - k,
        {
            let face = self.obj.face(k);
            let t = self.obj.get_triangle(&face);
            proof {
                assert(t =~= obj_face_tri(*self.obj, k as int));
                assert(coord_limited(t.a.as_math()) && coord_limited(t.b.as_math())
                    && coord_limited(t.c.as_math()));
                crate::model::lemma_edge_cross_bounds(t.a.as_math(), t.b.as_math(), t.c.as_math());
            }
            let e1 = t.c.sub(&t.a);
            let e2 = t.b.sub(&t.a);
            let cr = e1.cross(&e2);
            if cr.x == 0 && cr.y == 0 && cr.z == 0 {
                proof {
                    assert(face_culled(t, light_dir));
                }
            } else {
                proof {
                    lemma_dot_self_nonneg(cr.as_math());
                    assert(spec_dot3(cr.as_math(), cr.as_math()) != 0);
                }
                let normal = t.normal();
                proof {
                    lemma_unit_dot_in_range(normal.as_math(), light_dir.as_math());
                }
                let d = normal.dot(&light_dir);
                if d <= 0 {
                    proof {
                        assert(face_culled(t, light_dir));
                    }
                } else {
                    proof {
                        assert(!face_culled(t, light_dir));
                        crate::geo::lemma_tdiv_bounds(
                            255 * d + (SCALE * SCALE) / 2,
                            SCALE * SCALE,
                        );
                        assert(500_000_000_000i64 == (SCALE * SCALE) / 2);
                    }
                    let g = div_trunc(255 * d + 500_000_000_000, SCALE * SCALE);
                    let gc: u8 = if g > 255 {
                        255
                    } else {
                        g as u8
                    };
                    let color: [u8; 3] = [gc, gc, gc];
                    proof {
                        assert(g >= 0);
                        assert(rgb_of(color) == face_color(t, light_dir));
                    }
                    t.draw_filled(img, &color, zbuf);
                }
            }
            k = k + 1;
            proof {
                assert(lit_pass(m0, zb0, *self.obj, light_dir, w as int, h as int, k as nat).0
                    == frame_pixels(*img));
                assert(lit_pass(m0, zb0, *self.obj, light_dir, w as int, h as int, k as nat).1
                    == zbuf.data@);
            }
        }
    }
}

/// Some face's wireframe, among the first `k`, covers `(px, py)`.
pub open spec fn obj_wire_covers_upto(o: Obj, w: int, h: int, k: int, px: int, py: int) -> bool {
    exists|j: int|
        0 <= j < k && j < o.faces@.len() && crate::model::wire_covers(
            #[trigger] obj_face_tri(o, j),
            w,
            h,
            px,
            py,
        )
}

/// Some face's wireframe covers `(px, py)`.
pub open spec fn obj_wire_covers(o: Obj, w: int, h: int, px: int, py: int) -> bool {
    obj_wire_covers_upto(o, w, h, o.faces@.len() as int, px, py)
}

impl<'a> ObjRenderer<'a> {
    /// Draws every face's three rasterized edges — the wireframe mode, with
    /// no depth test.
    pub fn draw_wireframe(&self, img: &mut Frame, rgb: &[u8; 3])
        requires
            obj_wf(*self.obj),
            obj_renderable(*self.obj),
            ({
                let w = frame_dims(*old(img)).0;
                let h = frame_dims(*old(img)).1;
                &&& 1 <= w <= DIM_LIMIT
                &&& 1 <= h <= DIM_LIMIT
                &&& frame_pixels(*old(img)).dom() == grid_dom(w as int, h as int)
            }),
        ensures
            frame_dims(*final(img)) == frame_dims(*old(img)),
            frame_pixels(*final(img)).dom() == frame_pixels(*old(img)).dom(),
            forall|px: int, py: int|
                frame_pixels(*old(img)).dom().contains((px, py)) ==> frame_pixels(*final(img))[(
                    px,
                    py,
                )] == (if obj_wire_covers(
                    *self.obj,
                    frame_dims(*old(img)).0 as int,
                    frame_dims(*old(img)).1 as int,
                    px,
                    py,
                ) {
                    rgb_of(*rgb)
                } else {
                    frame_pixels(*old(img))[(px, py)]
                }),
    {
        let dims = img.dimensions();
        let w = dims.0;
        let h = dims.1;
        let ghost m0 = frame_pixels(*img);
        let n = self.obj.nfaces;
        let mut k: usize = 0;
        while k < n
            invariant
                obj_wf(*self.obj),
                obj_renderable(*self.obj),
                n == self.obj.faces@.len(),
                0 <= k <= n,
                w == frame_dims(*old(img)).0,
                h == frame_dims(*old(img)).1,
                1 <= w <= DIM_LIMIT,
                1 <= h <= DIM_LIMIT,
                m0 == frame_pixels(*old(img)),
                m0.dom() == grid_dom(w as int, h as int),
                frame_dims(*img) == frame_dims(*old(img)),
                frame_pixels(*img).dom() == m0.dom(),
                forall|px: int, py: int|
                    m0.dom().contains((px, py)) ==> frame_pixels(*img)[(px, py)] == (
                    if obj_wire_covers_upto(*self.obj, w as int, h as int, k as int, px, py) {
                        rgb_of(*rgb)
                    } else {
                        m0[(px, py)]
                    }),
            decreases n - k,
        {
            let face = self.obj.face(k);
            let t = self.obj.get_triangle(&face);
            let ghost m_pre = frame_pixels(*img);
            proof {
                assert(t =~= obj_face_tri(*self.obj, k as int));
            }
            t.draw(img, rgb);
            proof {
                assert forall|px: int, py: int|
                    m0.dom().contains((px, py)) implies frame_pixels(*img)[(px, py)] == (
                if obj_wire_covers_upto(*self.obj, w as int, h as int, k + 1, px, py) {
                    rgb_of(*rgb)
                } else {
                    m0[(px, py)]
                }) by {
                    if crate::model::wire_covers(
                        obj_face_tri(*self.obj, k as int),
                        w as int,
                        h as int,
                        px,
                        py,
                    ) {
                        assert(obj_wire_covers_upto(*self.obj, w as int, h as int, k + 1, px, py));
                    } else {
                        assert(frame_pixels(*img)[(px, py)] == m_pre[(px, py)]);
                        assert(obj_wire_covers_upto(*self.obj, w as int, h as int, k + 1, px, py)
                            == obj_wire_covers_upto(*self.obj, w as int, h as int, k as int, px, py));
                    }
                }
            }
            k = k + 1;
        }
    }
}

/// The buffers after the first `k` meshes of a scene have been rendered.
pub open spec fn scene_pass(
    m: Map<(int, int), (u8, u8, u8)>,
    zb: Seq<i64>,
    objs: Seq<Obj>,
    light: Vec3<i64>,
    w: int,
    h: int,
    k: nat,
) -> (Map<(int, int), (u8, u8, u8)>, Seq<i64>)
    decreases k,
{
    if k == 0 {
        (m, zb)
    } else {
        let prev = scene_pass(m, zb, objs, light, w, h, (k - 1) as nat);
        let o = objs[k - 1];
        lit_pass(prev.0, prev.1, o, light, w, h, o.faces@.len())
    }
}

/// A scene: the meshes to render, the light direction (a unit vector in
/// fixed point), and the framebuffer with its matching depth buffer.
pub struct Scene {
    pub objects: Vec<Obj>,
    pub light_dir: Vec3<i64>,
    pub img: Frame,
    pub zbuf: DepthBuffer,
}

/// The scene's buffers agree in size, the raster is within the fill limit,
/// and the light direction is unit-scaled.
pub open spec fn scene_wf(s: Scene) -> bool {
    let w = frame_dims(s.img).0;
    let h = frame_dims(s.img).1;
    &&& 1 <= w <= DIM_LIMIT
    &&& 1 <= h <= DIM_LIMIT
    &&& frame_pixels(s.img).dom() == grid_dom(w as int, h as int)
    &&& s.zbuf.wf()
    &&& s.zbuf.width == w
    &&& s.zbuf.height == h
    &&& abs(s.light_dir.x as int) <= SCALE
    &&& abs(s.light_dir.y as int) <= SCALE
    &&& abs(s.light_dir.z as int) <= SCALE
}

/// Every mesh of the scene is well-formed and renderable.
pub open spec fn scene_objects_ok(objs: Seq<Obj>) -> bool {
    forall|i: int| 0 <= i < objs.len() ==> obj_wf(#[trigger] objs[i]) && obj_renderable(objs[i])
}

impl Scene {
    /// A scene over the given framebuffer, with a fresh (empty) depth
    /// buffer of the same size and the default light along negative z.
    pub fn new(objects: Vec<Obj>, img: Frame) -> (s: Scene)
        requires
            1 <= frame_dims(img).0 <= DIM_LIMIT,
            1 <= frame_dims(img).1 <= DIM_LIMIT,
            frame_pixels(img).dom() == grid_dom(
                frame_dims(img).0 as int,
                frame_dims(img).1 as int,
            ),
        ensures
            s.objects == objects,
            s.img == img,
            s.light_dir == (Vec3 { x: 0i64, y: 0i64, z: -SCALE as i64 }),
            scene_wf(s),
            forall|i: int|
                0 <= i < s.zbuf.data@.len() ==> s.zbuf.data@[i] == crate::buffer::DEPTH_EMPTY,
    {
        let dims = img.dimensions();
        proof {
            assert((DIM_LIMIT as int) * (DIM_LIMIT as int) <= usize::MAX) by (nonlinear_arith);
            assert((dims.0 as int) * (dims.1 as int) <= (DIM_LIMIT as int) * (DIM_LIMIT as int))
                by (nonlinear_arith)
                requires
                    1 <= dims.0 <= DIM_LIMIT && 1 <= dims.1 <= DIM_LIMIT,
            ;
        }
        let zbuf = DepthBuffer::new(dims.0, dims.1);
        Scene { objects, light_dir: Vec3::new(0, 0, -SCALE), img, zbuf }
    }

    /// Appends a mesh to the scene.
    pub fn add_object(&mut self, obj: Obj)
        ensures
            final(self).objects@ == old(self).objects@.push(obj),
            final(self).light_dir == old(self).light_dir,
            final(self).img == old(self).img,
            final(self).zbuf == old(self).zbuf,
    {
        self.objects.push(obj);
    }

    /// Stores the normalized light direction; the direction must be
    /// nonzero.
    pub fn light_direction(&mut self, x: i64, y: i64, z: i64)
        requires
            !(x == 0 && y == 0 && z == 0),
            abs(x as int) <= crate::geo::VEC_LIMIT,
            abs(y as int) <= crate::geo::VEC_LIMIT,
            abs(z as int) <= crate::geo::VEC_LIMIT,
        ensures
            final(self).light_dir.as_math() == crate::geo::spec_normalize(
                (Vec3 { x: x as int, y: y as int, z: z as int }),
            ),
            abs(final(self).light_dir.x as int) <= SCALE,
            abs(final(self).light_dir.y as int) <= SCALE,
            abs(final(self).light_dir.z as int) <= SCALE,
            final(self).objects == old(self).objects,
            final(self).img == old(self).img,
            final(self).zbuf == old(self).zbuf,
    {
        let v = Vec3::new(x, y, z);
        proof {
            lemma_dot_self_nonneg(v.as_math());
        }
        self.light_dir = v.normalize();
    }

    /// Renders every mesh in order: each face is shaded, culled or filled
    /// through the shared depth buffer.  Re-invoking without resetting the
    /// depth buffer composites on top of the prior pass.
    pub fn draw(&mut self)
        requires
            scene_wf(*old(self)),
            scene_objects_ok(old(self).objects@),
        ensures
            scene_wf(*final(self)),
            final(self).objects@ == old(self).objects@,
            final(self).light_dir == old(self).light_dir,
            frame_dims(final(self).img) == frame_dims(old(self).img),
            ({
                let endstate = scene_pass(
                    frame_pixels(old(self).img),
                    old(self).zbuf.data@,
                    old(self).objects@,
                    old(self).light_dir,
                    frame_dims(old(self).img).0 as int,
                    frame_dims(old(self).img).1 as int,
                    old(self).objects@.len(),
                );
                frame_pixels(final(self).img) == endstate.0 && final(self).zbuf.data@
                    == endstate.1
            }),
    {
        let ghost m0 = frame_pixels(self.img);
        let ghost zb0 = self.zbuf.data@;
        let ghost objs = self.objects@;
        let ghost light = self.light_dir;
        let n = self.objects.len();
        let mut i: usize = 0;
        while i < n
            invariant
                scene_wf(*self),
                scene_objects_ok(objs),
                n == objs.len(),
                0 <= i <= n,
                self.objects@ == objs,
                self.light_dir == light,
                m0 == frame_pixels(old(self).img),
                zb0 == old(self).zbuf.data@,
                objs == old(self).objects@,
                light == old(self).light_dir,
                frame_dims(self.img) == frame_dims(old(self).img),
                (frame_pixels(self.img), self.zbuf.data@) == scene_pass(
                    m0,
                    zb0,
                    objs,
                    light,
                    frame_dims(old(self).img).0 as int,
                    frame_dims(old(self).img).1 as int,
                    i as nat,
                ),
            decreases n - i,
        {
            let renderer = ObjRenderer::new(&self.objects[i]);
            renderer.draw_lit(&mut self.img, self.light_dir, &mut self.zbuf);
            i = i + 1;
        }
    }
}

/// Within unit-scaled vectors the dot product's terms stay inside `i64`.
proof fn lemma_unit_dot_in_range(n: Vec3<int>, l: Vec3<int>)
    requires
        abs(n.x) <= SCALE,
        abs(n.y) <= SCALE,
        abs(n.z) <= SCALE,
        abs(l.x) <= SCALE,
        abs(l.y) <= SCALE,
        abs(l.z) <= SCALE,
    ensures
        crate::geo::dot3_in_range(n, l),
        abs(spec_dot3(n, l)) <= 3 * SCALE * SCALE,
{
    assert(-1000000000000 <= n.x * l.x <= 1000000000000 && -1000000000000 <= n.y * l.y
        <= 1000000000000 && -1000000000000 <= n.z * l.z <= 1000000000000) by (nonlinear_arith)
        requires
            -1000000 <= n.x <= 1000000 && -1000000 <= n.y <= 1000000 && -1000000 <= n.z <= 1000000
                && -1000000 <= l.x <= 1000000 && -1000000 <= l.y <= 1000000 && -1000000 <= l.z
                <= 1000000,
    ;
}

} // verus!
