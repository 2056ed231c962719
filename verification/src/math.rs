//! Vectors and matrices with integer components.
//!
//! Components are 64-bit integers; a caller that needs fractions fixes a
//! scale and keeps to it. Sums and products wrap around, so every operation
//! is total: a result is the exact result brought into the range of `i64`.

use vstd::prelude::*;
use vstd::wrapping::i64_specs::{signed_crop, wrapping_add, wrapping_mul};

verus! {

/// Adding with wrapping what two numbers wrap to gives what their sum wraps
/// to.
pub proof fn lemma_wrapping_sum(a: i64, x: int, b: i64, y: int)
    requires
        a == signed_crop(x),
        b == signed_crop(y),
    ensures
        wrapping_add(a, b) == signed_crop(x + y),
{
}

/// A pair of integers: a size or a point in the plane.
#[derive(Clone, Copy, PartialEq, Eq, Structural, Hash, Debug)]
pub struct Vec2 {
    pub x: i64,
    pub y: i64,
}

impl Vec2 {
    pub fn new(x: i64, y: i64) -> (v: Vec2)
        ensures
            v == (Vec2 { x, y }),
    {
        Vec2 { x, y }
    }
}

/// A point or a direction in space.
#[derive(Clone, Copy, PartialEq, Eq, Structural, Hash, Debug)]
pub struct Vec3 {
    pub x: i64,
    pub y: i64,
    pub z: i64,
}

impl Vec3 {
    pub open spec fn spec_zero() -> Vec3 {
        Vec3 { x: 0, y: 0, z: 0 }
    }

    pub open spec fn spec_one() -> Vec3 {
        Vec3 { x: 1, y: 1, z: 1 }
    }

    pub fn new(x: i64, y: i64, z: i64) -> (v: Vec3)
        ensures
            v == (Vec3 { x, y, z }),
    {
        Vec3 { x, y, z }
    }

    /// The origin.
    #[verifier::when_used_as_spec(spec_zero)]
    pub fn zero() -> (v: Vec3)
        ensures
            v == Vec3::zero(),
    {
        Vec3 { x: 0, y: 0, z: 0 }
    }

    /// The vector whose components are all 1: the scale that changes nothing.
    #[verifier::when_used_as_spec(spec_one)]
    pub fn one() -> (v: Vec3)
        ensures
            v == Vec3::one(),
    {
        Vec3 { x: 1, y: 1, z: 1 }
    }
}

/// A row of a [`Mat4`].
#[derive(Clone, Copy, PartialEq, Eq, Structural, Hash, Debug)]
pub struct Vec4 {
    pub x: i64,
    pub y: i64,
    pub z: i64,
    pub w: i64,
}

impl Vec4 {
    pub fn new(x: i64, y: i64, z: i64, w: i64) -> (v: Vec4)
        ensures
            v == (Vec4 { x, y, z, w }),
    {
        Vec4 { x, y, z, w }
    }

    /// The inner product of two vectors: the sum of the products of their
    /// components, brought into the range of `i64` by wrapping around.
    #[verifier::opaque]
    pub open spec fn spec_dot(self, other: Vec4) -> i64 {
        signed_crop(
            self.x * other.x + self.y * other.y + self.z * other.z + self.w * other.w,
        )
    }

    /// The inner product with a vector that is 1 in one place and 0 in the
    /// others is the component in that place.
    pub proof fn lemma_dot_unit(v: Vec4)
        ensures
            v.dot(Vec4 { x: 1, y: 0, z: 0, w: 0 }) == v.x,
            v.dot(Vec4 { x: 0, y: 1, z: 0, w: 0 }) == v.y,
            v.dot(Vec4 { x: 0, y: 0, z: 1, w: 0 }) == v.z,
            v.dot(Vec4 { x: 0, y: 0, z: 0, w: 1 }) == v.w,
            (Vec4 { x: 1, y: 0, z: 0, w: 0 }).dot(v) == v.x,
            (Vec4 { x: 0, y: 1, z: 0, w: 0 }).dot(v) == v.y,
            (Vec4 { x: 0, y: 0, z: 1, w: 0 }).dot(v) == v.z,
            (Vec4 { x: 0, y: 0, z: 0, w: 1 }).dot(v) == v.w,
    {
        reveal(Vec4::spec_dot);
    }

    #[verifier::when_used_as_spec(spec_dot)]
    pub fn dot(self, other: Vec4) -> (d: i64)
        ensures
            d == self.dot(other),
    {
        reveal(Vec4::spec_dot);
        proof {
            let a = self.x * other.x;
            let b = self.y * other.y;
            let c = self.z * other.z;
            let d = self.w * other.w;
            lemma_wrapping_sum(wrapping_mul(self.x, other.x), a, wrapping_mul(self.y, other.y), b);
            lemma_wrapping_sum(
                wrapping_add(wrapping_mul(self.x, other.x), wrapping_mul(self.y, other.y)),
                a + b,
                wrapping_mul(self.z, other.z),
                c,
            );
            lemma_wrapping_sum(
                wrapping_add(
                    wrapping_add(wrapping_mul(self.x, other.x), wrapping_mul(self.y, other.y)),
                    wrapping_mul(self.z, other.z),
                ),
                a + b + c,
                wrapping_mul(self.w, other.w),
                d,
            );
        }
        self.x.wrapping_mul(other.x).wrapping_add(self.y.wrapping_mul(other.y)).wrapping_add(
            self.z.wrapping_mul(other.z),
        ).wrapping_add(self.w.wrapping_mul(other.w))
    }
}

/// A 3 by 3 matrix, given by its rows: the linear part of a transform.
#[derive(Clone, Copy, PartialEq, Eq, Structural, Hash, Debug)]
pub struct Mat3 {
    pub r0: Vec3,
    pub r1: Vec3,
    pub r2: Vec3,
}

impl Mat3 {
    pub open spec fn spec_identity() -> Mat3 {
        Mat3 {
            r0: Vec3 { x: 1, y: 0, z: 0 },
            r1: Vec3 { x: 0, y: 1, z: 0 },
            r2: Vec3 { x: 0, y: 0, z: 1 },
        }
    }

    #[verifier::when_used_as_spec(spec_identity)]
    pub fn identity() -> (m: Mat3)
        ensures
            m == Mat3::identity(),
    {
        Mat3 {
            r0: Vec3 { x: 1, y: 0, z: 0 },
            r1: Vec3 { x: 0, y: 1, z: 0 },
            r2: Vec3 { x: 0, y: 0, z: 1 },
        }
    }
}

/// A 4 by 4 matrix, given by its rows. It acts on column vectors, so in a
/// product the right factor is applied first.
#[derive(Clone, Copy, PartialEq, Eq, Structural, Hash, Debug)]
pub struct Mat4 {
    pub r0: Vec4,
    pub r1: Vec4,
    pub r2: Vec4,
    pub r3: Vec4,
}

impl Mat4 {
    pub open spec fn spec_identity() -> Mat4 {
        Mat4 {
            r0: Vec4 { x: 1, y: 0, z: 0, w: 0 },
            r1: Vec4 { x: 0, y: 1, z: 0, w: 0 },
            r2: Vec4 { x: 0, y: 0, z: 1, w: 0 },
            r3: Vec4 { x: 0, y: 0, z: 0, w: 1 },
        }
    }

    #[verifier::when_used_as_spec(spec_identity)]
    pub fn identity() -> (m: Mat4)
        ensures
            m == Mat4::identity(),
    {
        Mat4 {
            r0: Vec4 { x: 1, y: 0, z: 0, w: 0 },
            r1: Vec4 { x: 0, y: 1, z: 0, w: 0 },
            r2: Vec4 { x: 0, y: 0, z: 1, w: 0 },
            r3: Vec4 { x: 0, y: 0, z: 0, w: 1 },
        }
    }

    /// The matrix that moves every point by `v`.
    pub open spec fn spec_translation(v: Vec3) -> Mat4 {
        Mat4 {
            r0: Vec4 { x: 1, y: 0, z: 0, w: v.x },
            r1: Vec4 { x: 0, y: 1, z: 0, w: v.y },
            r2: Vec4 { x: 0, y: 0, z: 1, w: v.z },
            r3: Vec4 { x: 0, y: 0, z: 0, w: 1 },
        }
    }

    #[verifier::when_used_as_spec(spec_translation)]
    pub fn translation(v: Vec3) -> (m: Mat4)
        ensures
            m == Mat4::translation(v),
    {
        Mat4 {
            r0: Vec4 { x: 1, y: 0, z: 0, w: v.x },
            r1: Vec4 { x: 0, y: 1, z: 0, w: v.y },
            r2: Vec4 { x: 0, y: 0, z: 1, w: v.z },
            r3: Vec4 { x: 0, y: 0, z: 0, w: 1 },
        }
    }

    /// Column `j` of the matrix, for `j` from 0 to 3.
    pub open spec fn spec_column(self, j: int) -> Vec4 {
        if j == 0 {
            Vec4 { x: self.r0.x, y: self.r1.x, z: self.r2.x, w: self.r3.x }
        } else if j == 1 {
            Vec4 { x: self.r0.y, y: self.r1.y, z: self.r2.y, w: self.r3.y }
        } else if j == 2 {
            Vec4 { x: self.r0.z, y: self.r1.z, z: self.r2.z, w: self.r3.z }
        } else {
            Vec4 { x: self.r0.w, y: self.r1.w, z: self.r2.w, w: self.r3.w }
        }
    }

    /// The row vector `row` times the matrix: the inner products of `row`
    /// with the four columns.
    pub open spec fn spec_row_times(self, row: Vec4) -> Vec4 {
        Vec4 {
            x: row.dot(self.spec_column(0)),
            y: row.dot(self.spec_column(1)),
            z: row.dot(self.spec_column(2)),
            w: row.dot(self.spec_column(3)),
        }
    }

    /// The matrix product `self * other`: entry `(i, j)` is the inner product
    /// of row `i` of `self` with column `j` of `other`.
    #[verifier::opaque]
    pub open spec fn spec_mul(self, other: Mat4) -> Mat4 {
        Mat4 {
            r0: other.spec_row_times(self.r0),
            r1: other.spec_row_times(self.r1),
            r2: other.spec_row_times(self.r2),
            r3: other.spec_row_times(self.r3),
        }
    }

    /// The identity changes nothing, on either side of a product.
    pub proof fn lemma_identity(m: Mat4)
        ensures
            Mat4::identity().mul(m) == m,
            m.mul(Mat4::identity()) == m,
    {
        reveal(Mat4::spec_mul);
        let i = Mat4::identity();
        Vec4::lemma_dot_unit(m.spec_column(0));
        Vec4::lemma_dot_unit(m.spec_column(1));
        Vec4::lemma_dot_unit(m.spec_column(2));
        Vec4::lemma_dot_unit(m.spec_column(3));
        Vec4::lemma_dot_unit(m.r0);
        Vec4::lemma_dot_unit(m.r1);
        Vec4::lemma_dot_unit(m.r2);
        Vec4::lemma_dot_unit(m.r3);
        assert(m.spec_row_times(i.r0) == m.r0);
        assert(m.spec_row_times(i.r1) == m.r1);
        assert(m.spec_row_times(i.r2) == m.r2);
        assert(m.spec_row_times(i.r3) == m.r3);
        assert(i.spec_row_times(m.r0) == m.r0);
        assert(i.spec_row_times(m.r1) == m.r1);
        assert(i.spec_row_times(m.r2) == m.r2);
        assert(i.spec_row_times(m.r3) == m.r3);
    }

    fn column(&self, j: u8) -> (c: Vec4)
        ensures
            c == self.spec_column(j as int),
    {
        if j == 0 {
            Vec4 { x: self.r0.x, y: self.r1.x, z: self.r2.x, w: self.r3.x }
        } else if j == 1 {
            Vec4 { x: self.r0.y, y: self.r1.y, z: self.r2.y, w: self.r3.y }
        } else if j == 2 {
            Vec4 { x: self.r0.z, y: self.r1.z, z: self.r2.z, w: self.r3.z }
        } else {
            Vec4 { x: self.r0.w, y: self.r1.w, z: self.r2.w, w: self.r3.w }
        }
    }

    fn row_times(&self, row: Vec4) -> (r: Vec4)
        ensures
            r == self.spec_row_times(row),
    {
        Vec4 {
            x: row.dot(self.column(0)),
            y: row.dot(self.column(1)),
            z: row.dot(self.column(2)),
            w: row.dot(self.column(3)),
        }
    }

    /// The matrix product `self * other`.
    #[verifier::when_used_as_spec(spec_mul)]
    pub fn mul(self, other: Mat4) -> (m: Mat4)
        ensures
            m == self.mul(other),
    {
        reveal(Mat4::spec_mul);
        Mat4 {
            r0: other.row_times(self.r0),
            r1: other.row_times(self.r1),
            r2: other.row_times(self.r2),
            r3: other.row_times(self.r3),
        }
    }
}

} // verus!
