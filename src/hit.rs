use crate::bounds::Bounds;
use vstd::prelude::*;

verus! {

/// A ray's test against a box: does the ray meet `b` at some distance
/// strictly between `t_min` and `t_max`?
///
/// Implemented by the ray type; `spec_slab` names what `slab` returns. A
/// box test may answer `true` where the ray misses (it only prunes); it
/// must not answer `false` where a primitive inside the box is hit in the
/// window (see [`boxes_sound`]).
pub trait SlabTest {
    spec fn spec_slab(&self, b: Bounds, t_min: i64, t_max: i64) -> bool;

    fn slab(&self, b: &Bounds, t_min: i64, t_max: i64) -> (r: bool)
        ensures
            r == self.spec_slab(*b, t_min, t_max),
    ;
}

/// Anything a ray can hit: a box around it, and the nearest distance at
/// which a ray meets it.
///
/// `spec_bounds` and `spec_hit` name what `get_bounds` and `hit` return;
/// an implementation outside verified code gives them the same bodies.
/// The queries of this crate are proved to find a nearest hit for rays and
/// primitives that keep [`windows_consistent`] and [`boxes_sound`].
pub trait Hittable {
    type Ray;

    spec fn spec_bounds(&self) -> Bounds;

    /// The distance of the nearest intersection strictly inside
    /// `(t_min, t_max)`, or `None`.
    spec fn spec_hit(&self, r: Self::Ray, t_min: i64, t_max: i64) -> Option<i64>;

    fn get_bounds(&self) -> (b: Bounds)
        ensures
            b == self.spec_bounds(),
    ;

    fn hit(&self, r: &Self::Ray, t_min: i64, t_max: i64) -> (h: Option<i64>)
        ensures
            h == self.spec_hit(*r, t_min, t_max),
    ;
}

/// What a query found: which primitive of the list, and at what distance.
#[derive(Clone, Copy, Debug, PartialEq, Eq, Structural)]
pub struct HitRecord {
    pub index: usize,
    pub t: i64,
}

/// `h` cut down to the window that ends at `hi`.
pub open spec fn narrowed(h: Option<i64>, hi: i64) -> Option<i64> {
    match h {
        Some(t) => if t < hi {
            Some(t)
        } else {
            None
        },
        None => None,
    }
}

/// Every primitive answers with the nearest of its own intersections in
/// the window: lowering the window's end only drops what lies beyond it.
pub open spec fn windows_consistent<H: Hittable>(objs: Seq<H>, r: H::Ray) -> bool {
    forall|i: int, lo: i64, hi: i64, hi2: i64|
        #![trigger objs[i].spec_hit(r, lo, hi2), objs[i].spec_hit(r, lo, hi)]
        0 <= i < objs.len() && hi2 <= hi ==> objs[i].spec_hit(r, lo, hi2) == narrowed(
            objs[i].spec_hit(r, lo, hi),
            hi2,
        )
}

/// A box around a primitive that is hit in a window is met in that window.
pub open spec fn boxes_sound<H: Hittable>(objs: Seq<H>, r: H::Ray) -> bool where
    H::Ray: SlabTest,
 {
    forall|i: int, b: Bounds, lo: i64, hi: i64|
        #![trigger r.spec_slab(b, lo, hi), objs[i].spec_hit(r, lo, hi)]
        0 <= i < objs.len() && b.encloses(objs[i].spec_bounds()) && objs[i].spec_hit(
            r,
            lo,
            hi,
        ) is Some ==> r.spec_slab(b, lo, hi)
}

/// The scan of `idx` first to last: each primitive is asked in a window
/// that ends at the nearest hit so far, and a hit it reports replaces it.
pub open spec fn scan<H: Hittable>(
    objs: Seq<H>,
    r: H::Ray,
    idx: Seq<usize>,
    lo: i64,
    hi: i64,
) -> Option<HitRecord>
    decreases idx.len(),
{
    if idx.len() == 0 {
        None
    } else {
        let prev = scan(objs, r, idx.drop_last(), lo, hi);
        let end = match prev {
            Some(h) => h.t,
            None => hi,
        };
        match objs[idx.last() as int].spec_hit(r, lo, end) {
            Some(t) => Some(HitRecord { index: idx.last(), t }),
            None => prev,
        }
    }
}

/// The indices `0..n`.
pub open spec fn all_indices(n: nat) -> Seq<usize> {
    Seq::new(n, |i: int| i as usize)
}

/// `res` is a nearest hit in `(lo, hi)` among the primitives at `idx`, or
/// `None` where none of them is hit there.
pub open spec fn is_nearest<H: Hittable>(
    objs: Seq<H>,
    r: H::Ray,
    idx: Seq<usize>,
    lo: i64,
    hi: i64,
    res: Option<HitRecord>,
) -> bool {
    match res {
        None => forall|k: int|
            0 <= k < idx.len() ==> (#[trigger] objs[idx[k] as int].spec_hit(r, lo, hi)) is None,
        Some(h) => {
            &&& idx.contains(h.index)
            &&& objs[h.index as int].spec_hit(r, lo, hi) == Some(h.t)
            &&& forall|k: int|
                0 <= k < idx.len() ==> match #[trigger] objs[idx[k] as int].spec_hit(r, lo, hi) {
                    Some(t) => h.t <= t,
                    None => true,
                }
        },
    }
}

/// The scan finds a nearest hit.
pub proof fn lemma_scan_nearest<H: Hittable>(
    objs: Seq<H>,
    r: H::Ray,
    idx: Seq<usize>,
    lo: i64,
    hi: i64,
)
    requires
        windows_consistent(objs, r),
        forall|k: int| 0 <= k < idx.len() ==> idx[k] < objs.len(),
    ensures
        is_nearest(objs, r, idx, lo, hi, scan(objs, r, idx, lo, hi)),
    decreases idx.len(),
{
    if idx.len() > 0 {
        let rest = idx.drop_last();
        lemma_scan_nearest(objs, r, rest, lo, hi);
        let prev = scan(objs, r, rest, lo, hi);
        let end = match prev {
            Some(h) => h.t,
            None => hi,
        };
        let last = idx.last() as int;
        let full = objs[last].spec_hit(r, lo, hi);
        assert(objs[last].spec_hit(r, lo, end) == narrowed(full, end)) by {
            if let Some(h) = prev {
                assert(rest.contains(h.index));
                let k0 = choose|k: int| 0 <= k < rest.len() && rest[k] == h.index;
                assert(objs[rest[k0] as int].spec_hit(r, lo, hi) == Some(h.t));
                assert(objs[h.index as int].spec_hit(r, lo, h.t) == narrowed(Some(h.t), h.t));
            }
        }
        assert(forall|k: int| 0 <= k < rest.len() ==> rest[k] == idx[k]);
        match scan(objs, r, idx, lo, hi) {
            Some(h) => {
                assert(idx[idx.len() - 1] == idx.last());
                if h.index == idx.last() && objs[last].spec_hit(r, lo, end) == Some(h.t) {
                    assert(idx.contains(h.index));
                } else {
                    assert(rest.contains(h.index));
                    let k0 = choose|k: int| 0 <= k < rest.len() && rest[k] == h.index;
                    assert(idx[k0] == h.index);
                }
            },
            None => {},
        }
    }
}

/// A flat list of primitives, asked one after the other.
pub struct HittableList<H> {
    pub objects: Vec<H>,
    pub bbox: Bounds,
}

impl<H: Hittable> HittableList<H> {
    /// Removes every primitive; the box stays as it was.
    pub fn clear(&mut self)
        ensures
            final(self).objects@ == Seq::<H>::empty(),
            final(self).bbox == old(self).bbox,
    {
        self.objects.clear();
    }

    /// Appends `h`.
    pub fn add(&mut self, h: H)
        ensures
            final(self).objects@ == old(self).objects@.push(h),
            final(self).bbox == old(self).bbox,
    {
        self.objects.push(h);
    }

    /// Appends `h`, as [`HittableList::add`] does.
    #[allow(non_snake_case)]
    pub fn generateBVH(&mut self, h: H)
        ensures
            final(self).objects@ == old(self).objects@.push(h),
            final(self).bbox == old(self).bbox,
    {
        self.objects.push(h);
    }

    /// The nearest hit in `(t_min, t_max)` over the whole list, by a scan
    /// from first to last.
    pub fn nearest(&self, r: &H::Ray, t_min: i64, t_max: i64) -> (res: Option<HitRecord>)
        ensures
            res == scan(self.objects@, *r, all_indices(self.objects@.len()), t_min, t_max),
            windows_consistent(self.objects@, *r) ==> is_nearest(
                self.objects@,
                *r,
                all_indices(self.objects@.len()),
                t_min,
                t_max,
                res,
            ),
    {
        let mut out: Option<HitRecord> = None;
        let mut closest_hit = t_max;
        let mut i: usize = 0;
        while i < self.objects.len()
            invariant
                i <= self.objects.len(),
                out == scan(self.objects@, *r, all_indices(i as nat), t_min, t_max),
                closest_hit == match out {
                    Some(h) => h.t,
                    None => t_max,
                },
            decreases self.objects.len() - i,
        {
            assert(all_indices((i + 1) as nat).drop_last() =~= all_indices(i as nat));
            match self.objects[i].hit(r, t_min, closest_hit) {
                Some(t) => {
                    closest_hit = t;
                    out = Some(HitRecord { index: i, t });
                },
                None => {},
            }
            i = i + 1;
        }
        proof {
            if windows_consistent(self.objects@, *r) {
                lemma_scan_nearest(self.objects@, *r, all_indices(self.objects@.len()), t_min, t_max);
            }
        }
        out
    }
}

impl<H: Hittable> Hittable for HittableList<H> {
    type Ray = H::Ray;

    open spec fn spec_bounds(&self) -> Bounds {
        self.bbox
    }

    open spec fn spec_hit(&self, r: H::Ray, t_min: i64, t_max: i64) -> Option<i64> {
        match scan(self.objects@, r, all_indices(self.objects@.len()), t_min, t_max) {
            Some(h) => Some(h.t),
            None => None,
        }
    }

    fn get_bounds(&self) -> (b: Bounds) {
        self.bbox
    }

    fn hit(&self, r: &H::Ray, t_min: i64, t_max: i64) -> (h: Option<i64>) {
        match self.nearest(r, t_min, t_max) {
            Some(h) => Some(h.t),
            None => None,
        }
    }
}

} // verus!
