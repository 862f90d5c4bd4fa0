use rasterizer::geo::{isqrt, Vec2, Vec3, SCALE};

#[test]
fn add() {
    let first = Vec3::<i64>::new(1, 2, 3);
    let second = Vec3::<i64>::new(2, 3, 4);
    assert_eq!(first.add(&second), Vec3::<i64>::new(3, 5, 7));
}

#[test]
fn sub() {
    let first = Vec3::<i64>::new(1, 2, 3);
    let second = Vec3::<i64>::new(2, 3, 4);
    assert_eq!(first.sub(&second), Vec3::<i64>::new(-1, -1, -1));
}

#[test]
fn norm() {
    // |(1, 1, 1)| = sqrt(3); in fixed point, floor(sqrt(3) * SCALE)
    let v = Vec3::<i64>::new(SCALE, SCALE, SCALE);
    assert_eq!(v.norm(), 1_732_050);
}

#[test]
fn normalize() {
    // |normalize(v)| == 1 within the fixed-point epsilon
    let v = Vec3::<i64>::new(SCALE, SCALE, SCALE);
    let n = v.normalize().norm();
    assert_eq!(n, 999_999);
    assert!((n - SCALE).abs() <= 1);
}

#[test]
fn dot() {
    let first = Vec2::<i64>::new(1, -1);
    let second = Vec2::<i64>::new(1, 1);
    assert_eq!(first.dot(&second), 0);
}

#[test]
fn cross() {
    let first = Vec3::<i64>::new(1, 2, 3);
    let second = Vec3::<i64>::new(2, 3, 4);
    assert_eq!(first.cross(&second).dot(&first), 0);
    assert_eq!(first.cross(&second).dot(&second), 0);
    assert_eq!(second.cross(&first), first.cross(&second).mul(-1));
}

#[test]
fn cross_unit_axes() {
    // cross((1,0,0), (0,1,0)) == (0,0,1), at any common scale
    let x_axis = Vec3::<i64>::new(1, 0, 0);
    let y_axis = Vec3::<i64>::new(0, 1, 0);
    assert_eq!(x_axis.cross(&y_axis), Vec3::<i64>::new(0, 0, 1));
    let xs = Vec3::<i64>::new(SCALE, 0, 0);
    let ys = Vec3::<i64>::new(0, SCALE, 0);
    assert_eq!(xs.cross(&ys), Vec3::<i64>::new(0, 0, SCALE * SCALE));
}

#[test]
fn cross_dot_orthogonal_more() {
    // dot(cross(u, v), u) == 0 and dot(cross(u, v), v) == 0 on further values
    let u = Vec3::<i64>::new(-7, 11, 13);
    let v = Vec3::<i64>::new(5, -3, 2);
    let c = u.cross(&v);
    assert_eq!(c.dot(&u), 0);
    assert_eq!(c.dot(&v), 0);
}

#[test]
fn scale_componentwise() {
    let v = Vec3::<i64>::new(1, -2, 3);
    assert_eq!(v.mul(5), Vec3::<i64>::new(5, -10, 15));
}

#[test]
fn vec2_add_sub() {
    let a = Vec2::<i64>::new(3, 4);
    let b = Vec2::<i64>::new(1, 2);
    assert_eq!(a.add(&b), Vec2::<i64>::new(4, 6));
    assert_eq!(a.sub(&b), Vec2::<i64>::new(2, 2));
}

#[test]
fn to_i32_in_range() {
    let v = Vec3::<i64>::new(1, -2, 3);
    assert_eq!(v.to_i32(), Some(Vec3::<i32>::new(1, -2, 3)));
}

#[test]
fn to_i32_out_of_range() {
    let v = Vec3::<i64>::new(i64::MAX, 0, 0);
    assert_eq!(v.to_i32(), None);
}

#[test]
fn to_u32_negative() {
    let v = Vec3::<i64>::new(-1, 0, 0);
    assert_eq!(v.to_u32(), None);
    assert_eq!(Vec3::<i64>::new(1, 2, 3).to_u32(), Some(Vec3::<u32>::new(1, 2, 3)));
}

#[test]
fn isqrt_values() {
    assert_eq!(isqrt(0), 0);
    assert_eq!(isqrt(1), 1);
    assert_eq!(isqrt(3), 1);
    assert_eq!(isqrt(4), 2);
    assert_eq!(isqrt(999_999), 999);
    assert_eq!(isqrt(1_000_000), 1000);
    assert_eq!(isqrt(u64::MAX as u128), 0xFFFF_FFFF);
}

#[test]
fn normalize_negates() {
    // normalize(-v) == -normalize(v): truncation is symmetric about zero
    let v = Vec3::<i64>::new(3, -4, 12);
    let neg = v.mul(-1);
    assert_eq!(neg.normalize(), v.normalize().mul(-1));
}
