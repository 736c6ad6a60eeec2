use crate::bounds::axis;
use vstd::prelude::*;

verus! {

/// Three components: a point, an extent or a direction.
#[derive(Clone, Copy, Debug, PartialEq, Eq)]
pub struct Vector3<T> {
    pub x: T,
    pub y: T,
    pub z: T,
}

impl<T: Copy> Vector3<T> {
    pub fn from_tuple(t: (T, T, T)) -> (r: Vector3<T>)
        ensures
            r.x == t.0,
            r.y == t.1,
            r.z == t.2,
    {
        Vector3 { x: t.0, y: t.1, z: t.2 }
    }

    /// The first three entries of `t`.
    pub fn from_vector(t: Vec<T>) -> (r: Vector3<T>)
        requires
            t.len() >= 3,
        ensures
            r.x == t@[0],
            r.y == t@[1],
            r.z == t@[2],
    {
        Vector3 { x: t[0], y: t[1], z: t[2] }
    }
}

/// The component of `v` along axis `a`.
pub open spec fn coord(v: Vector3<i64>, a: axis) -> i64 {
    match a {
        axis::x => v.x,
        axis::y => v.y,
        axis::z => v.z,
    }
}

pub open spec fn min64(a: i64, b: i64) -> i64 {
    if a <= b {
        a
    } else {
        b
    }
}

pub open spec fn max64(a: i64, b: i64) -> i64 {
    if a >= b {
        a
    } else {
        b
    }
}

/// Componentwise minimum.
pub open spec fn vmin(a: Vector3<i64>, b: Vector3<i64>) -> Vector3<i64> {
    Vector3 { x: min64(a.x, b.x), y: min64(a.y, b.y), z: min64(a.z, b.z) }
}

/// Componentwise maximum.
pub open spec fn vmax(a: Vector3<i64>, b: Vector3<i64>) -> Vector3<i64> {
    Vector3 { x: max64(a.x, b.x), y: max64(a.y, b.y), z: max64(a.z, b.z) }
}

/// `a <= b` on every axis.
pub open spec fn le3(a: Vector3<i64>, b: Vector3<i64>) -> bool {
    a.x <= b.x && a.y <= b.y && a.z <= b.z
}

impl Vector3<i64> {
    /// The component along axis `a`.
    pub fn get(&self, a: axis) -> (r: i64)
        ensures
            r == coord(*self, a),
    {
        match a {
            axis::x => self.x,
            axis::y => self.y,
            axis::z => self.z,
        }
    }

    pub fn min_with(&self, o: &Vector3<i64>) -> (r: Vector3<i64>)
        ensures
            r == vmin(*self, *o),
    {
        Vector3 {
            x: if self.x <= o.x { self.x } else { o.x },
            y: if self.y <= o.y { self.y } else { o.y },
            z: if self.z <= o.z { self.z } else { o.z },
        }
    }

    pub fn max_with(&self, o: &Vector3<i64>) -> (r: Vector3<i64>)
        ensures
            r == vmax(*self, *o),
    {
        Vector3 {
            x: if self.x >= o.x { self.x } else { o.x },
            y: if self.y >= o.y { self.y } else { o.y },
            z: if self.z >= o.z { self.z } else { o.z },
        }
    }
}

} // verus!
