//! The placement of a node relative to its parent.

use vstd::prelude::*;
use vstd::wrapping::i64_specs::signed_crop;
use crate::math::{Mat3, Mat4, Vec3, Vec4};

verus! {

/// Position, rotation and scale of a node in the frame of its parent. The
/// rotation is kept as the matrix it stands for.
#[derive(Clone, Copy, PartialEq, Eq, Structural, Hash, Debug)]
pub struct Transform {
    position: Vec3,
    rotation: Mat3,
    scale: Vec3,
}

impl Transform {
    /// The transform that leaves everything where it is.
    pub closed spec fn spec_identity() -> Transform {
        Transform { position: Vec3::zero(), rotation: Mat3::identity(), scale: Vec3::one() }
    }

    pub closed spec fn spec_position(&self) -> Vec3 {
        self.position
    }

    pub closed spec fn spec_rotation(&self) -> Mat3 {
        self.rotation
    }

    pub closed spec fn spec_scale(&self) -> Vec3 {
        self.scale
    }

    /// The same transform at another position.
    pub closed spec fn with_position(self, position: Vec3) -> Transform {
        Transform { position, ..self }
    }

    /// The same transform with another rotation.
    pub closed spec fn with_rotation(self, rotation: Mat3) -> Transform {
        Transform { rotation, ..self }
    }

    /// The same transform with another scale.
    pub closed spec fn with_scale(self, scale: Vec3) -> Transform {
        Transform { scale, ..self }
    }

    /// Row `row` of the rotation with each component multiplied by the scale
    /// along its axis and brought into the range of `i64` by wrapping around,
    /// followed by the offset `shift`.
    pub open spec fn scaled_row(row: Vec3, scale: Vec3, shift: i64) -> Vec4 {
        Vec4 {
            x: signed_crop(row.x * scale.x),
            y: signed_crop(row.y * scale.y),
            z: signed_crop(row.z * scale.z),
            w: shift,
        }
    }

    /// The matrix of the transform: scale first, then rotate, then move to
    /// the position.
    #[verifier::opaque]
    pub open spec fn spec_matrix(&self) -> Mat4 {
        Mat4 {
            r0: Self::scaled_row(self.spec_rotation().r0, self.spec_scale(),
                self.spec_position().x),
            r1: Self::scaled_row(self.spec_rotation().r1, self.spec_scale(),
                self.spec_position().y),
            r2: Self::scaled_row(self.spec_rotation().r2, self.spec_scale(),
                self.spec_position().z),
            r3: Vec4 { x: 0, y: 0, z: 0, w: 1 },
        }
    }

    #[verifier::when_used_as_spec(spec_identity)]
    pub fn identity() -> (t: Transform)
        ensures
            t == Transform::identity(),
            t.spec_position() == Vec3::zero(),
            t.spec_rotation() == Mat3::identity(),
            t.spec_scale() == Vec3::one(),
    {
        Transform { position: Vec3::zero(), rotation: Mat3::identity(), scale: Vec3::one() }
    }

    #[verifier::when_used_as_spec(spec_position)]
    pub fn position(&self) -> (p: Vec3)
        ensures
            p == self.position(),
    {
        self.position
    }

    #[verifier::when_used_as_spec(spec_rotation)]
    pub fn rotation(&self) -> (r: Mat3)
        ensures
            r == self.rotation(),
    {
        self.rotation
    }

    #[verifier::when_used_as_spec(spec_scale)]
    pub fn scale(&self) -> (s: Vec3)
        ensures
            s == self.scale(),
    {
        self.scale
    }

    pub fn set_position(&mut self, position: Vec3)
        ensures
            *final(self) == old(self).with_position(position),
            final(self).position() == position,
            final(self).rotation() == old(self).rotation(),
            final(self).scale() == old(self).scale(),
    {
        self.position = position;
    }

    pub fn set_rotation(&mut self, rotation: Mat3)
        ensures
            *final(self) == old(self).with_rotation(rotation),
            final(self).position() == old(self).position(),
            final(self).rotation() == rotation,
            final(self).scale() == old(self).scale(),
    {
        self.rotation = rotation;
    }

    pub fn set_scale(&mut self, scale: Vec3)
        ensures
            *final(self) == old(self).with_scale(scale),
            final(self).position() == old(self).position(),
            final(self).rotation() == old(self).rotation(),
            final(self).scale() == scale,
    {
        self.scale = scale;
    }

    fn row(row: Vec3, scale: Vec3, shift: i64) -> (r: Vec4)
        ensures
            r == Self::scaled_row(row, scale, shift),
    {
        Vec4 {
            x: row.x.wrapping_mul(scale.x),
            y: row.y.wrapping_mul(scale.y),
            z: row.z.wrapping_mul(scale.z),
            w: shift,
        }
    }

    /// The matrix of the transform.
    #[verifier::when_used_as_spec(spec_matrix)]
    pub fn matrix(&self) -> (m: Mat4)
        ensures
            m == self.matrix(),
    {
        reveal(Transform::spec_matrix);
        Mat4 {
            r0: Self::row(self.rotation.r0, self.scale, self.position.x),
            r1: Self::row(self.rotation.r1, self.scale, self.position.y),
            r2: Self::row(self.rotation.r2, self.scale, self.position.z),
            r3: Vec4 { x: 0, y: 0, z: 0, w: 1 },
        }
    }

    /// The identity stands at the origin, is not turned and has the scale 1.
    pub proof fn lemma_identity()
        ensures
            Transform::identity().position() == Vec3::zero(),
            Transform::identity().rotation() == Mat3::identity(),
            Transform::identity().scale() == Vec3::one(),
    {
    }

    /// A transform at another position has that position, and the rotation
    /// and scale it had.
    pub proof fn lemma_with_position(self, position: Vec3)
        ensures
            self.with_position(position).position() == position,
            self.with_position(position).rotation() == self.rotation(),
            self.with_position(position).scale() == self.scale(),
    {
    }

    /// A transform with another rotation has that rotation, and the position
    /// and scale it had.
    pub proof fn lemma_with_rotation(self, rotation: Mat3)
        ensures
            self.with_rotation(rotation).position() == self.position(),
            self.with_rotation(rotation).rotation() == rotation,
            self.with_rotation(rotation).scale() == self.scale(),
    {
    }

    /// A transform with another scale has that scale, and the position and
    /// rotation it had.
    pub proof fn lemma_with_scale(self, scale: Vec3)
        ensures
            self.with_scale(scale).position() == self.position(),
            self.with_scale(scale).rotation() == self.rotation(),
            self.with_scale(scale).scale() == scale,
    {
    }

    /// A transform is determined by its position, rotation and scale.
    pub proof fn lemma_eq(a: Transform, b: Transform)
        requires
            a.position() == b.position(),
            a.rotation() == b.rotation(),
            a.scale() == b.scale(),
        ensures
            a == b,
    {
    }
}

} // verus!
