//! Vectors and matrices of binary32 numbers.
//!
//! Each operation rounds after every step, in the order that its contract
//! spells out.
use crate::binary32::{Binary32, HALF, ONE, ZERO};
use vstd::prelude::*;

verus! {

#[derive(Clone, Copy, Debug, PartialEq, Eq, Structural)]
pub struct Vec3 {
    pub x: Binary32,
    pub y: Binary32,
    pub z: Binary32,
}

/// A matrix given by its columns.
#[derive(Clone, Copy, Debug, PartialEq, Eq, Structural)]
pub struct Mat3 {
    pub x_axis: Vec3,
    pub y_axis: Vec3,
    pub z_axis: Vec3,
}

/// A rotation as a quaternion.
#[derive(Clone, Copy, Debug, PartialEq, Eq, Structural)]
pub struct Quat {
    pub x: Binary32,
    pub y: Binary32,
    pub z: Binary32,
    pub w: Binary32,
}

impl Vec3 {
    #[verifier::allow_in_spec]
    pub fn new(x: Binary32, y: Binary32, z: Binary32) -> Vec3
        returns
            (Vec3 { x, y, z }),
    {
        Vec3 { x, y, z }
    }

    /// The vector whose three components are one number.
    #[verifier::allow_in_spec]
    pub fn splat(value: Binary32) -> Vec3
        returns
            Vec3::new(value, value, value),
    {
        Vec3::new(value, value, value)
    }

    /// The origin.
    #[verifier::allow_in_spec]
    pub fn zero() -> Vec3
        returns
            Vec3::splat(Binary32::of(ZERO)),
    {
        Vec3::splat(Binary32::of(ZERO))
    }

    /// The unit vector along the first axis.
    #[verifier::allow_in_spec]
    pub fn x_unit() -> Vec3
        returns
            Vec3::new(Binary32::of(ONE), Binary32::of(ZERO), Binary32::of(ZERO)),
    {
        Vec3::new(Binary32::of(ONE), Binary32::of(ZERO), Binary32::of(ZERO))
    }

    /// The unit vector along the second axis.
    #[verifier::allow_in_spec]
    pub fn y_unit() -> Vec3
        returns
            Vec3::new(Binary32::of(ZERO), Binary32::of(ONE), Binary32::of(ZERO)),
    {
        Vec3::new(Binary32::of(ZERO), Binary32::of(ONE), Binary32::of(ZERO))
    }

    /// The unit vector along the third axis.
    #[verifier::allow_in_spec]
    pub fn z_unit() -> Vec3
        returns
            Vec3::new(Binary32::of(ZERO), Binary32::of(ZERO), Binary32::of(ONE)),
    {
        Vec3::new(Binary32::of(ZERO), Binary32::of(ZERO), Binary32::of(ONE))
    }

    #[verifier::allow_in_spec]
    pub fn plus(self, other: Vec3) -> Vec3
        returns
            Vec3::new(self.x.plus(other.x), self.y.plus(other.y), self.z.plus(other.z)),
    {
        Vec3::new(self.x.plus(other.x), self.y.plus(other.y), self.z.plus(other.z))
    }

    #[verifier::allow_in_spec]
    pub fn minus(self, other: Vec3) -> Vec3
        returns
            Vec3::new(self.x.minus(other.x), self.y.minus(other.y), self.z.minus(other.z)),
    {
        Vec3::new(self.x.minus(other.x), self.y.minus(other.y), self.z.minus(other.z))
    }

    /// The product component by component.
    #[verifier::allow_in_spec]
    pub fn times(self, other: Vec3) -> Vec3
        returns
            Vec3::new(self.x.times(other.x), self.y.times(other.y), self.z.times(other.z)),
    {
        Vec3::new(self.x.times(other.x), self.y.times(other.y), self.z.times(other.z))
    }

    #[verifier::allow_in_spec]
    pub fn scaled(self, factor: Binary32) -> Vec3
        returns
            Vec3::new(self.x.times(factor), self.y.times(factor), self.z.times(factor)),
    {
        Vec3::new(self.x.times(factor), self.y.times(factor), self.z.times(factor))
    }

    #[verifier::allow_in_spec]
    pub fn over(self, divisor: Binary32) -> Vec3
        returns
            Vec3::new(self.x.over(divisor), self.y.over(divisor), self.z.over(divisor)),
    {
        Vec3::new(self.x.over(divisor), self.y.over(divisor), self.z.over(divisor))
    }

    #[verifier::allow_in_spec]
    pub fn neg(self) -> Vec3
        returns
            Vec3::new(self.x.neg(), self.y.neg(), self.z.neg()),
    {
        Vec3::new(self.x.neg(), self.y.neg(), self.z.neg())
    }

    #[verifier::allow_in_spec]
    pub fn dot(self, other: Vec3) -> Binary32
        returns
            self.x.times(other.x).plus(self.y.times(other.y)).plus(self.z.times(other.z)),
    {
        self.x.times(other.x).plus(self.y.times(other.y)).plus(self.z.times(other.z))
    }

    #[verifier::allow_in_spec]
    pub fn cross(self, other: Vec3) -> Vec3
        returns
            Vec3::new(
                self.y.times(other.z).minus(other.y.times(self.z)),
                self.z.times(other.x).minus(other.z.times(self.x)),
                self.x.times(other.y).minus(other.x.times(self.y)),
            ),
    {
        Vec3::new(
            self.y.times(other.z).minus(other.y.times(self.z)),
            self.z.times(other.x).minus(other.z.times(self.x)),
            self.x.times(other.y).minus(other.x.times(self.y)),
        )
    }

    #[verifier::allow_in_spec]
    pub fn length_squared(self) -> Binary32
        returns
            self.dot(self),
    {
        self.dot(self)
    }

    #[verifier::allow_in_spec]
    pub fn length(self) -> Binary32
        returns
            self.dot(self).root(),
    {
        self.dot(self).root()
    }

    #[verifier::allow_in_spec]
    pub fn distance_squared(self, other: Vec3) -> Binary32
        returns
            self.minus(other).length_squared(),
    {
        self.minus(other).length_squared()
    }

    /// The vector of the same direction with a length of about one.
    #[verifier::allow_in_spec]
    pub fn normalize(self) -> Vec3
        returns
            self.scaled(Binary32::of(ONE).over(self.length())),
    {
        self.scaled(Binary32::of(ONE).over(self.length()))
    }

    /// The lesser component each time, the other one where they do not compare.
    pub open spec fn spec_least(self, other: Vec3) -> Vec3 {
        Vec3 {
            x: if self.x.lt(other.x) {
                self.x
            } else {
                other.x
            },
            y: if self.y.lt(other.y) {
                self.y
            } else {
                other.y
            },
            z: if self.z.lt(other.z) {
                self.z
            } else {
                other.z
            },
        }
    }

    #[verifier::when_used_as_spec(spec_least)]
    pub fn least(self, other: Vec3) -> (result: Vec3)
        ensures
            result == self.spec_least(other),
    {
        Vec3 {
            x: if self.x.lt(other.x) {
                self.x
            } else {
                other.x
            },
            y: if self.y.lt(other.y) {
                self.y
            } else {
                other.y
            },
            z: if self.z.lt(other.z) {
                self.z
            } else {
                other.z
            },
        }
    }

    /// The greater component each time, the other one where they do not compare.
    pub open spec fn spec_greatest(self, other: Vec3) -> Vec3 {
        Vec3 {
            x: if other.x.lt(self.x) {
                self.x
            } else {
                other.x
            },
            y: if other.y.lt(self.y) {
                self.y
            } else {
                other.y
            },
            z: if other.z.lt(self.z) {
                self.z
            } else {
                other.z
            },
        }
    }

    #[verifier::when_used_as_spec(spec_greatest)]
    pub fn greatest(self, other: Vec3) -> (result: Vec3)
        ensures
            result == self.spec_greatest(other),
    {
        Vec3 {
            x: if other.x.lt(self.x) {
                self.x
            } else {
                other.x
            },
            y: if other.y.lt(self.y) {
                self.y
            } else {
                other.y
            },
            z: if other.z.lt(self.z) {
                self.z
            } else {
                other.z
            },
        }
    }
}

impl Mat3 {
    #[verifier::allow_in_spec]
    pub fn from_cols(x_axis: Vec3, y_axis: Vec3, z_axis: Vec3) -> Mat3
        returns
            (Mat3 { x_axis, y_axis, z_axis }),
    {
        Mat3 { x_axis, y_axis, z_axis }
    }

    #[verifier::allow_in_spec]
    pub fn transpose(self) -> Mat3
        returns
            Mat3::from_cols(
                Vec3::new(self.x_axis.x, self.y_axis.x, self.z_axis.x),
                Vec3::new(self.x_axis.y, self.y_axis.y, self.z_axis.y),
                Vec3::new(self.x_axis.z, self.y_axis.z, self.z_axis.z),
            ),
    {
        Mat3::from_cols(
            Vec3::new(self.x_axis.x, self.y_axis.x, self.z_axis.x),
            Vec3::new(self.x_axis.y, self.y_axis.y, self.z_axis.y),
            Vec3::new(self.x_axis.z, self.y_axis.z, self.z_axis.z),
        )
    }

    /// The image of a vector.
    #[verifier::allow_in_spec]
    pub fn apply(self, v: Vec3) -> Vec3
        returns
            self.x_axis.scaled(v.x).plus(self.y_axis.scaled(v.y)).plus(self.z_axis.scaled(v.z)),
    {
        self.x_axis.scaled(v.x).plus(self.y_axis.scaled(v.y)).plus(self.z_axis.scaled(v.z))
    }

    #[verifier::allow_in_spec]
    pub fn minus(self, other: Mat3) -> Mat3
        returns
            Mat3::from_cols(
                self.x_axis.minus(other.x_axis),
                self.y_axis.minus(other.y_axis),
                self.z_axis.minus(other.z_axis),
            ),
    {
        Mat3::from_cols(
            self.x_axis.minus(other.x_axis),
            self.y_axis.minus(other.y_axis),
            self.z_axis.minus(other.z_axis),
        )
    }

    #[verifier::allow_in_spec]
    pub fn scaled(self, factor: Binary32) -> Mat3
        returns
            Mat3::from_cols(
                self.x_axis.scaled(factor),
                self.y_axis.scaled(factor),
                self.z_axis.scaled(factor),
            ),
    {
        Mat3::from_cols(
            self.x_axis.scaled(factor),
            self.y_axis.scaled(factor),
            self.z_axis.scaled(factor),
        )
    }
}

impl Quat {
    /// The rotation that moves nothing.
    #[verifier::allow_in_spec]
    pub fn identity() -> Quat
        returns
            (Quat {
                x: Binary32::of(ZERO),
                y: Binary32::of(ZERO),
                z: Binary32::of(ZERO),
                w: Binary32::of(ONE),
            }),
    {
        Quat {
            x: Binary32::of(ZERO),
            y: Binary32::of(ZERO),
            z: Binary32::of(ZERO),
            w: Binary32::of(ONE),
        }
    }

    /// The rotation that takes the coordinate axes to the columns of an
    /// orthonormal, right-handed basis. The component that is computed first,
    /// and by which the others are divided, is one that cannot be small.
    pub open spec fn spec_from_basis(basis: Mat3) -> Quat {
        let (m00, m01, m02) = (basis.x_axis.x, basis.x_axis.y, basis.x_axis.z);
        let (m10, m11, m12) = (basis.y_axis.x, basis.y_axis.y, basis.y_axis.z);
        let (m20, m21, m22) = (basis.z_axis.x, basis.z_axis.y, basis.z_axis.z);
        let zero = Binary32::of(ZERO);
        let half = Binary32::of(HALF);
        let one = Binary32::of(ONE);
        if m22.le(zero) {
            let difference = m11.minus(m00);
            let rest = one.minus(m22);
            if difference.le(zero) {
                let square = rest.minus(difference);
                let share = half.over(square.root());
                Quat {
                    x: square.times(share),
                    y: m01.plus(m10).times(share),
                    z: m02.plus(m20).times(share),
                    w: m12.minus(m21).times(share),
                }
            } else {
                let square = rest.plus(difference);
                let share = half.over(square.root());
                Quat {
                    x: m01.plus(m10).times(share),
                    y: square.times(share),
                    z: m12.plus(m21).times(share),
                    w: m20.minus(m02).times(share),
                }
            }
        } else {
            let sum = m11.plus(m00);
            let rest = one.plus(m22);
            if sum.le(zero) {
                let square = rest.minus(sum);
                let share = half.over(square.root());
                Quat {
                    x: m02.plus(m20).times(share),
                    y: m12.plus(m21).times(share),
                    z: square.times(share),
                    w: m01.minus(m10).times(share),
                }
            } else {
                let square = rest.plus(sum);
                let share = half.over(square.root());
                Quat {
                    x: m12.minus(m21).times(share),
                    y: m20.minus(m02).times(share),
                    z: m01.minus(m10).times(share),
                    w: square.times(share),
                }
            }
        }
    }

    #[verifier::when_used_as_spec(spec_from_basis)]
    pub fn from_basis(basis: Mat3) -> (result: Quat)
        ensures
            result == Quat::spec_from_basis(basis),
    {
        let (m00, m01, m02) = (basis.x_axis.x, basis.x_axis.y, basis.x_axis.z);
        let (m10, m11, m12) = (basis.y_axis.x, basis.y_axis.y, basis.y_axis.z);
        let (m20, m21, m22) = (basis.z_axis.x, basis.z_axis.y, basis.z_axis.z);
        let zero = Binary32::of(ZERO);
        let half = Binary32::of(HALF);
        let one = Binary32::of(ONE);
        if m22.le(zero) {
            let difference = m11.minus(m00);
            let rest = one.minus(m22);
            if difference.le(zero) {
                let square = rest.minus(difference);
                let share = half.over(square.root());
                Quat {
                    x: square.times(share),
                    y: m01.plus(m10).times(share),
                    z: m02.plus(m20).times(share),
                    w: m12.minus(m21).times(share),
                }
            } else {
                let square = rest.plus(difference);
                let share = half.over(square.root());
                Quat {
                    x: m01.plus(m10).times(share),
                    y: square.times(share),
                    z: m12.plus(m21).times(share),
                    w: m20.minus(m02).times(share),
                }
            }
        } else {
            let sum = m11.plus(m00);
            let rest = one.plus(m22);
            if sum.le(zero) {
                let square = rest.minus(sum);
                let share = half.over(square.root());
                Quat {
                    x: m02.plus(m20).times(share),
                    y: m12.plus(m21).times(share),
                    z: square.times(share),
                    w: m01.minus(m10).times(share),
                }
            } else {
                let square = rest.plus(sum);
                let share = half.over(square.root());
                Quat {
                    x: m12.minus(m21).times(share),
                    y: m20.minus(m02).times(share),
                    z: m01.minus(m10).times(share),
                    w: square.times(share),
                }
            }
        }
    }

    /// The basis that the coordinate axes are taken to.
    pub open spec fn spec_basis(self) -> Mat3 {
        let one = Binary32::of(ONE);
        let (x2, y2, z2) = (self.x.plus(self.x), self.y.plus(self.y), self.z.plus(self.z));
        let (xx, xy, xz) = (self.x.times(x2), self.x.times(y2), self.x.times(z2));
        let (yy, yz, zz) = (self.y.times(y2), self.y.times(z2), self.z.times(z2));
        let (wx, wy, wz) = (self.w.times(x2), self.w.times(y2), self.w.times(z2));
        Mat3::from_cols(
            Vec3::new(one.minus(yy.plus(zz)), xy.plus(wz), xz.minus(wy)),
            Vec3::new(xy.minus(wz), one.minus(xx.plus(zz)), yz.plus(wx)),
            Vec3::new(xz.plus(wy), yz.minus(wx), one.minus(xx.plus(yy))),
        )
    }

    #[verifier::when_used_as_spec(spec_basis)]
    pub fn basis(self) -> (result: Mat3)
        ensures
            result == self.spec_basis(),
    {
        let one = Binary32::of(ONE);
        let (x2, y2, z2) = (self.x.plus(self.x), self.y.plus(self.y), self.z.plus(self.z));
        let (xx, xy, xz) = (self.x.times(x2), self.x.times(y2), self.x.times(z2));
        let (yy, yz, zz) = (self.y.times(y2), self.y.times(z2), self.z.times(z2));
        let (wx, wy, wz) = (self.w.times(x2), self.w.times(y2), self.w.times(z2));
        Mat3::from_cols(
            Vec3::new(one.minus(yy.plus(zz)), xy.plus(wz), xz.minus(wy)),
            Vec3::new(xy.minus(wz), one.minus(xx.plus(zz)), yz.plus(wx)),
            Vec3::new(xz.plus(wy), yz.minus(wx), one.minus(xx.plus(yy))),
        )
    }
}

} // verus!
