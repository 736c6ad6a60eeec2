use crate::hit::{Hittable, SlabTest};
use crate::vectors::{coord, le3, vmax, vmin, Vector3};
use vstd::prelude::*;

verus! {

/// One of the three coordinate axes.
#[allow(non_camel_case_types)]
#[derive(Clone, Copy, Debug, PartialEq, Eq, Structural)]
pub enum axis {
    x,
    y,
    z,
}

/// An axis-aligned box from corner `min` to corner `max`.
///
/// The box with `min` at `i64::MAX` and `max` at `i64::MIN` on every axis is
/// the empty box: the identity of [`Bounds::union`].
#[derive(Clone, Copy, Debug)]
pub struct Bounds {
    pub min: Vector3<i64>,
    pub max: Vector3<i64>,
}

pub open spec fn abs_int(v: int) -> int {
    if v < 0 {
        -v
    } else {
        v
    }
}

impl Bounds {
    pub open spec fn empty() -> Bounds {
        Bounds {
            min: Vector3 { x: i64::MAX, y: i64::MAX, z: i64::MAX },
            max: Vector3 { x: i64::MIN, y: i64::MIN, z: i64::MIN },
        }
    }

    /// The smallest box around both `self` and `o`.
    pub open spec fn spec_union(self, o: Bounds) -> Bounds {
        Bounds { min: vmin(self.min, o.min), max: vmax(self.max, o.max) }
    }

    /// `self` holds all of `o`.
    pub open spec fn encloses(self, o: Bounds) -> bool {
        le3(self.min, o.min) && le3(o.max, self.max)
    }

    pub open spec fn contains(self, p: Vector3<i64>) -> bool {
        le3(self.min, p) && le3(p, self.max)
    }

    /// The box grown to take in point `p`.
    pub open spec fn fit_point(self, p: Vector3<i64>) -> Bounds {
        Bounds { min: vmin(self.min, p), max: vmax(self.max, p) }
    }

    /// The box grown to take in each point of `pts`, first to last.
    pub open spec fn fit_all(self, pts: Seq<Vector3<i64>>) -> Bounds
        decreases pts.len(),
    {
        if pts.len() == 0 {
            self
        } else {
            self.fit_all(pts.drop_last()).fit_point(pts.last())
        }
    }

    /// The width of the box along axis `a`.
    pub open spec fn extent(self, a: axis) -> int {
        abs_int(coord(self.max, a) - coord(self.min, a))
    }

    /// The longest axis: `x` only where its extent is strictly larger than
    /// that of `y`, and then `z` wherever its extent is at least the larger
    /// of the two.
    pub open spec fn longest_axis(self) -> axis {
        let first = if self.extent(axis::x) > self.extent(axis::y) {
            axis::x
        } else {
            axis::y
        };
        if self.extent(axis::z) >= self.extent(first) {
            axis::z
        } else {
            first
        }
    }

    /// The union of every box of `bs`, starting from the empty box.
    pub open spec fn union_all(bs: Seq<Bounds>) -> Bounds
        decreases bs.len(),
    {
        if bs.len() == 0 {
            Bounds::empty()
        } else {
            Bounds::union_all(bs.drop_last()).spec_union(bs.last())
        }
    }

    /// Twice the midpoint of the box along axis `a`.
    pub open spec fn center2(self, a: axis) -> int {
        coord(self.min, a) + coord(self.max, a)
    }

    /// The empty box.
    pub fn new() -> (r: Bounds)
        ensures
            r == Bounds::empty(),
    {
        Bounds {
            min: Vector3 { x: i64::MAX, y: i64::MAX, z: i64::MAX },
            max: Vector3 { x: i64::MIN, y: i64::MIN, z: i64::MIN },
        }
    }

    /// The box that holds every point of the grid.
    pub fn infinity() -> (r: Bounds)
        ensures
            r.min == (Vector3 { x: i64::MIN, y: i64::MIN, z: i64::MIN }),
            r.max == (Vector3 { x: i64::MAX, y: i64::MAX, z: i64::MAX }),
    {
        Bounds {
            min: Vector3 { x: i64::MIN, y: i64::MIN, z: i64::MIN },
            max: Vector3 { x: i64::MAX, y: i64::MAX, z: i64::MAX },
        }
    }

    /// The box of a sphere: `p - r` to `p + r` on each axis.
    #[allow(non_snake_case)]
    pub fn fromSphere(p: Vector3<i64>, r: i64) -> (b: Bounds)
        requires
            i64::MIN <= p.x - r <= i64::MAX,
            i64::MIN <= p.x + r <= i64::MAX,
            i64::MIN <= p.y - r <= i64::MAX,
            i64::MIN <= p.y + r <= i64::MAX,
            i64::MIN <= p.z - r <= i64::MAX,
            i64::MIN <= p.z + r <= i64::MAX,
        ensures
            b.min == (Vector3 { x: (p.x - r) as i64, y: (p.y - r) as i64, z: (p.z - r) as i64 }),
            b.max == (Vector3 { x: (p.x + r) as i64, y: (p.y + r) as i64, z: (p.z + r) as i64 }),
    {
        Bounds {
            min: Vector3 { x: p.x - r, y: p.y - r, z: p.z - r },
            max: Vector3 { x: p.x + r, y: p.y + r, z: p.z + r },
        }
    }

    /// The smallest box around both `self` and `o`.
    pub fn union(&self, o: &Bounds) -> (r: Bounds)
        ensures
            r == self.spec_union(*o),
    {
        Bounds { min: self.min.min_with(&o.min), max: self.max.max_with(&o.max) }
    }

    /// The union of the boxes of all of `objects`.
    pub fn from_hittables<H: Hittable>(objects: &Vec<H>) -> (r: Bounds)
        ensures
            r == Bounds::union_all(objects@.map_values(|o: H| o.spec_bounds())),
    {
        let mut b = Bounds::new();
        let mut k: usize = 0;
        while k < objects.len()
            invariant
                k <= objects.len(),
                b == Bounds::union_all(
                    objects@.subrange(0, k as int).map_values(|o: H| o.spec_bounds()),
                ),
            decreases objects.len() - k,
        {
            let o = objects[k].get_bounds();
            b = b.union(&o);
            assert(objects@.subrange(0, k + 1).map_values(|o: H| o.spec_bounds()).drop_last()
                =~= objects@.subrange(0, k as int).map_values(|o: H| o.spec_bounds()));
            k = k + 1;
        }
        assert(objects@.subrange(0, k as int) =~= objects@);
        b
    }

    /// Grows the box to take in every point of `points`.
    #[allow(non_snake_case)]
    pub fn fitPoints(&mut self, points: Vec<Vector3<i64>>)
        ensures
            *final(self) == old(self).fit_all(points@),
            final(self).encloses(*old(self)),
            forall|k: int| 0 <= k < points.len() ==> final(self).contains(#[trigger] points@[k]),
            points.len() > 0 ==> le3(final(self).min, final(self).max),
    {
        let ghost start = *self;
        let mut k: usize = 0;
        while k < points.len()
            invariant
                k <= points.len(),
                *self == start.fit_all(points@.subrange(0, k as int)),
                self.encloses(start),
                forall|j: int| 0 <= j < k ==> self.contains(#[trigger] points@[j]),
            decreases points.len() - k,
        {
            let p = points[k];
            self.min = self.min.min_with(&p);
            self.max = self.max.max_with(&p);
            assert(points@.subrange(0, k + 1).drop_last() =~= points@.subrange(0, k as int));
            k = k + 1;
        }
        assert(points@.subrange(0, k as int) =~= points@);
        if points.len() > 0 {
            assert(self.contains(points@[0]));
        }
    }

    /// The longest axis of the box; see [`Bounds::longest_axis`] for how
    /// ties fall.
    #[allow(non_snake_case)]
    pub fn getLongestAxis(&self) -> (r: axis)
        ensures
            r == self.longest_axis(),
    {
        let dx = Bounds::width(self.max.x, self.min.x);
        let dy = Bounds::width(self.max.y, self.min.y);
        let dz = Bounds::width(self.max.z, self.min.z);
        let longest: i128;
        let mut result: axis;
        if dx > dy {
            longest = dx;
            result = axis::x;
        } else {
            longest = dy;
            result = axis::y;
        }
        if dz >= longest {
            result = axis::z;
        }
        result
    }

    fn width(hi: i64, lo: i64) -> (r: i128)
        ensures
            r == abs_int(hi - lo),
    {
        let d = hi as i128 - lo as i128;
        if d < 0 {
            -d
        } else {
            d
        }
    }

    /// Twice the midpoint of the box along axis `a`, exact.
    pub fn center_twice(&self, a: axis) -> (r: i128)
        ensures
            r == self.center2(a),
    {
        self.min.get(a) as i128 + self.max.get(a) as i128
    }

    /// Corner `max` for 1, corner `min` for any other value.
    pub fn index(&self, idx: i32) -> (r: Vector3<i64>)
        ensures
            r == (if idx == 1 {
                self.max
            } else {
                self.min
            }),
    {
        if idx == 1 {
            self.max
        } else {
            self.min
        }
    }

    /// Whether ray `r` meets the box strictly between `tmin` and `tmax`.
    pub fn hit<R: SlabTest>(&self, r: &R, tmin: i64, tmax: i64) -> (res: bool)
        ensures
            res == r.spec_slab(*self, tmin, tmax),
    {
        r.slab(self, tmin, tmax)
    }
}

/// The union of a list of boxes holds each of them.
pub proof fn lemma_union_all_encloses(bs: Seq<Bounds>)
    ensures
        forall|k: int| 0 <= k < bs.len() ==> Bounds::union_all(bs).encloses(#[trigger] bs[k]),
    decreases bs.len(),
{
    if bs.len() > 0 {
        lemma_union_all_encloses(bs.drop_last());
        assert forall|k: int| 0 <= k < bs.len() implies Bounds::union_all(bs).encloses(
            #[trigger] bs[k],
        ) by {
            if k < bs.len() - 1 {
                assert(bs.drop_last()[k] == bs[k]);
            }
        }
    }
}

/// The union of a list of boxes is the tightest box around them: any
/// bound that holds of every box holds of the union.
pub proof fn lemma_union_all_tight(bs: Seq<Bounds>, a: axis, v: i64)
    ensures
        (forall|k: int| 0 <= k < bs.len() ==> v <= coord(#[trigger] bs[k].min, a)) ==> v <= coord(Bounds::union_all(bs).min, a),
        (forall|k: int| 0 <= k < bs.len() ==> coord(#[trigger] bs[k].max, a) <= v) ==> coord(Bounds::union_all(bs).max, a) <= v,
    decreases bs.len(),
{
    if bs.len() > 0 {
        let rest = bs.drop_last();
        lemma_union_all_tight(rest, a, v);
        assert(forall|k: int| 0 <= k < rest.len() ==> rest[k] == bs[k]);
        assert(bs.last() == bs[bs.len() - 1]);
    }
}

} // verus!
