use scene_graph::math::{Mat3, Mat4, Vec2, Vec3, Vec4};
use scene_graph::transform::Transform;

#[test]
fn vectors_hold_their_components() {
    assert_eq!(Vec2::new(1, 2), Vec2 { x: 1, y: 2 });
    assert_eq!(Vec3::new(1, 2, 3), Vec3 { x: 1, y: 2, z: 3 });
    assert_eq!(Vec3::zero(), Vec3 { x: 0, y: 0, z: 0 });
    assert_eq!(Vec3::one(), Vec3 { x: 1, y: 1, z: 1 });
    assert_eq!(Vec4::new(1, 2, 3, 4), Vec4 { x: 1, y: 2, z: 3, w: 4 });
}

#[test]
fn dot_is_the_sum_of_the_products() {
    let a = Vec4::new(1, 2, 3, 4);
    let b = Vec4::new(5, 6, 7, 8);
    assert_eq!(a.dot(b), 5 + 12 + 21 + 32);
}

#[test]
fn dot_wraps_around() {
    let a = Vec4::new(i64::MAX, 0, 0, 0);
    let b = Vec4::new(2, 0, 0, 0);
    assert_eq!(a.dot(b), -2);
    let c = Vec4::new(i64::MAX, 1, 0, 0);
    let d = Vec4::new(1, 1, 0, 0);
    assert_eq!(c.dot(d), i64::MIN);
}

#[test]
fn identity_is_neutral() {
    let m = Mat4 {
        r0: Vec4::new(1, 2, 3, 4),
        r1: Vec4::new(5, 6, 7, 8),
        r2: Vec4::new(9, 10, 11, 12),
        r3: Vec4::new(13, 14, 15, 16),
    };
    assert_eq!(Mat4::identity().mul(m), m);
    assert_eq!(m.mul(Mat4::identity()), m);
}

#[test]
fn product_has_rows_times_columns() {
    let a = Mat4 {
        r0: Vec4::new(1, 2, 0, 0),
        r1: Vec4::new(0, 1, 0, 0),
        r2: Vec4::new(0, 0, 1, 0),
        r3: Vec4::new(0, 0, 0, 1),
    };
    let b = Mat4 {
        r0: Vec4::new(1, 0, 0, 0),
        r1: Vec4::new(3, 1, 0, 0),
        r2: Vec4::new(0, 0, 1, 0),
        r3: Vec4::new(0, 0, 0, 1),
    };
    let ab = Mat4 {
        r0: Vec4::new(7, 2, 0, 0),
        r1: Vec4::new(3, 1, 0, 0),
        r2: Vec4::new(0, 0, 1, 0),
        r3: Vec4::new(0, 0, 0, 1),
    };
    let ba = Mat4 {
        r0: Vec4::new(1, 2, 0, 0),
        r1: Vec4::new(3, 7, 0, 0),
        r2: Vec4::new(0, 0, 1, 0),
        r3: Vec4::new(0, 0, 0, 1),
    };
    assert_eq!(a.mul(b), ab);
    assert_eq!(b.mul(a), ba);
}

#[test]
fn translations_add_up() {
    let a = Mat4::translation(Vec3::new(1, 2, 3));
    let b = Mat4::translation(Vec3::new(10, 20, 30));
    assert_eq!(a.mul(b), Mat4::translation(Vec3::new(11, 22, 33)));
}

#[test]
fn identity_transform_has_identity_matrix() {
    let t = Transform::identity();
    assert_eq!(t.position(), Vec3::zero());
    assert_eq!(t.rotation(), Mat3::identity());
    assert_eq!(t.scale(), Vec3::one());
    assert_eq!(t.matrix(), Mat4::identity());
}

#[test]
fn transform_matrix_scales_then_rotates_then_moves() {
    let mut t = Transform::identity();
    t.set_position(Vec3::new(5, 6, 7));
    t.set_scale(Vec3::new(2, 3, 4));
    t.set_rotation(Mat3 {
        r0: Vec3::new(0, -1, 0),
        r1: Vec3::new(1, 0, 0),
        r2: Vec3::new(0, 0, 1),
    });
    let expected = Mat4 {
        r0: Vec4::new(0, -3, 0, 5),
        r1: Vec4::new(2, 0, 0, 6),
        r2: Vec4::new(0, 0, 4, 7),
        r3: Vec4::new(0, 0, 0, 1),
    };
    assert_eq!(t.matrix(), expected);
    assert_eq!(t.position(), Vec3::new(5, 6, 7));
    assert_eq!(t.scale(), Vec3::new(2, 3, 4));
}

#[test]
fn setters_leave_the_other_parts() {
    let mut t = Transform::identity();
    t.set_scale(Vec3::new(2, 2, 2));
    t.set_position(Vec3::new(1, 1, 1));
    assert_eq!(t.scale(), Vec3::new(2, 2, 2));
    assert_eq!(t.rotation(), Mat3::identity());
    t.set_rotation(Mat3::identity());
    assert_eq!(t.position(), Vec3::new(1, 1, 1));
}
