pub use crate::bounds::{axis, Bounds};
use crate::bounds::lemma_union_all_encloses;
use crate::hit::{
    all_indices, boxes_sound, is_nearest, lemma_scan_nearest, narrowed, scan, windows_consistent,
    HitRecord, Hittable, HittableList, SlabTest,
};
use crate::split::{
    below_mid, boxes_at, lemma_union_all_permuted, sort_by_center, split_at_midpoint,
};
use std::sync::Arc;
use vstd::multiset::Multiset;
use vstd::prelude::*;

verus! {

/// The most primitives a leaf holds when its box can still be split.
pub const LEAF_CAPACITY: usize = 12;

/// A node of a bounding volume hierarchy.
///
/// A leaf (no children) holds indices into the primitive list it was built
/// over, and the union of their boxes. An inner node holds two children,
/// the union of their boxes, and no indices of its own.
#[allow(non_camel_case_types)]
pub struct bvhNode {
    pub indices: Vec<usize>,
    pub left: Option<Box<bvhNode>>,
    pub right: Option<Box<bvhNode>>,
    pub bbox: Bounds,
}

impl bvhNode {
    /// The indices of every leaf, left subtree before right.
    pub open spec fn leaves(self) -> Seq<usize>
        decreases self,
    {
        match self.left {
            Some(l) => match self.right {
                Some(r) => l.leaves() + r.leaves(),
                None => self.indices@,
            },
            None => self.indices@,
        }
    }

    /// The shape a build over `objs` leaves:
    /// - a leaf holds indices of `objs`, its box is the union of theirs,
    ///   and it holds at most [`LEAF_CAPACITY`] of them unless they all fall
    ///   on one side of its box's midpoint along its longest axis;
    /// - an inner node has no indices of its own, its box is the union of
    ///   its children's, both children hold some primitive, and those below
    ///   its box's midpoint along its longest axis are all on the left.
    pub open spec fn wf<H: Hittable>(self, objs: Seq<H>) -> bool
        decreases self,
    {
        match self.left {
            Some(l) => match self.right {
                Some(r) => {
                    &&& l.wf(objs)
                    &&& r.wf(objs)
                    &&& self.indices@.len() == 0
                    &&& l.leaves().len() > 0
                    &&& r.leaves().len() > 0
                    &&& self.bbox == l.bbox.spec_union(r.bbox)
                    &&& forall|k: int|
                        0 <= k < l.leaves().len() ==> below_mid(objs, #[trigger] l.leaves()[k], self.bbox)
                    &&& forall|k: int|
                        0 <= k < r.leaves().len() ==> !below_mid(objs, #[trigger] r.leaves()[k], self.bbox)
                },
                None => false,
            },
            None => {
                &&& self.right is None
                &&& forall|k: int| 0 <= k < self.indices@.len() ==> #[trigger] self.indices@[k] < objs.len()
                &&& self.bbox == Bounds::union_all(boxes_at(objs, self.indices@))
                &&& (self.indices@.len() <= LEAF_CAPACITY
                    || (forall|k: int| 0 <= k < self.indices@.len() ==> below_mid(objs, #[trigger] self.indices@[k], self.bbox))
                    || (forall|k: int| 0 <= k < self.indices@.len() ==> !below_mid(objs, #[trigger] self.indices@[k], self.bbox)))
            },
        }
    }

    /// What [`bvhNode::intersect`] returns.
    pub open spec fn spec_intersect<H: Hittable>(
        self,
        objs: Seq<H>,
        r: H::Ray,
        t_min: i64,
        t_max: i64,
    ) -> Option<HitRecord> where H::Ray: SlabTest
        decreases self,
    {
        if !r.spec_slab(self.bbox, t_min, t_max) {
            None
        } else {
            match self.left {
                Some(l) => match self.right {
                    Some(rt) => {
                        let lh = l.spec_intersect(objs, r, t_min, t_max);
                        let end = match lh {
                            Some(h) => h.t,
                            None => t_max,
                        };
                        let rh = rt.spec_intersect(objs, r, t_min, end);
                        if rh is Some {
                            rh
                        } else {
                            lh
                        }
                    },
                    None => scan(objs, r, self.indices@, t_min, t_max),
                },
                None => scan(objs, r, self.indices@, t_min, t_max),
            }
        }
    }

    /// The indices of every leaf, left subtree before right.
    pub fn leaf_indices(&self) -> (r: Vec<usize>)
        ensures
            r@ == self.leaves(),
        decreases self,
    {
        match &self.left {
            Some(l) => match &self.right {
                Some(rt) => {
                    let mut a = l.leaf_indices();
                    let mut b = rt.leaf_indices();
                    a.append(&mut b);
                    a
                },
                None => self.indices.clone(),
            },
            None => self.indices.clone(),
        }
    }

    /// Scans the primitives this node holds itself, first to last.
    fn scan_leaf<H: Hittable>(&self, list: &HittableList<H>, r: &H::Ray, t_min: i64, t_max: i64) -> (res: Option<HitRecord>)
        requires
            forall|k: int| 0 <= k < self.indices@.len() ==> #[trigger] self.indices@[k] < list.objects.len(),
        ensures
            res == scan(list.objects@, *r, self.indices@, t_min, t_max),
    {
        let mut out: Option<HitRecord> = None;
        let mut closest_hit = t_max;
        let mut k: usize = 0;
        while k < self.indices.len()
            invariant
                k <= self.indices.len(),
                forall|j: int| 0 <= j < self.indices@.len() ==> #[trigger] self.indices@[j] < list.objects.len(),
                out == scan(list.objects@, *r, self.indices@.subrange(0, k as int), t_min, t_max),
                closest_hit == match out {
                    Some(h) => h.t,
                    None => t_max,
                },
            decreases self.indices.len() - k,
        {
            assert(self.indices@.subrange(0, k + 1).drop_last() =~= self.indices@.subrange(0, k as int));
            let i = self.indices[k];
            match list.objects[i].hit(r, t_min, closest_hit) {
                Some(t) => {
                    closest_hit = t;
                    out = Some(HitRecord { index: i, t });
                },
                None => {},
            }
            k = k + 1;
        }
        assert(self.indices@.subrange(0, k as int) =~= self.indices@);
        out
    }

    /// The nearest hit in `(t_min, t_max)` among the primitives of `list`
    /// that this node covers.
    ///
    /// A node whose box the ray misses answers `None` at once. A leaf scans
    /// its primitives, narrowing the window to each hit it finds. An inner
    /// node asks its left child, then its right child in the window cut
    /// down to the left child's hit, and keeps the right child's hit where
    /// there is one.
    pub fn intersect<H: Hittable>(&self, list: &HittableList<H>, r: &H::Ray, t_min: i64, t_max: i64) -> (res: Option<HitRecord>)
        where
            H::Ray: SlabTest,
        requires
            self.wf(list.objects@),
        ensures
            res == self.spec_intersect(list.objects@, *r, t_min, t_max),
            windows_consistent(list.objects@, *r) && boxes_sound(list.objects@, *r) ==> is_nearest(
                list.objects@,
                *r,
                self.leaves(),
                t_min,
                t_max,
                res,
            ),
        decreases self,
    {
        proof {
            if windows_consistent(list.objects@, *r) && boxes_sound(list.objects@, *r) {
                lemma_intersect_nearest(*self, list.objects@, *r, t_min, t_max);
            }
        }
        if !self.bbox.hit(r, t_min, t_max) {
            return None;
        }
        match &self.left {
            Some(l) => match &self.right {
                Some(rt) => {
                    let lh = l.intersect(list, r, t_min, t_max);
                    let end = match lh {
                        Some(h) => h.t,
                        None => t_max,
                    };
                    let rh = rt.intersect(list, r, t_min, end);
                    if rh.is_some() {
                        rh
                    } else {
                        lh
                    }
                },
                None => self.scan_leaf(list, r, t_min, t_max),
            },
            None => self.scan_leaf(list, r, t_min, t_max),
        }
    }

    /// The box around everything this node covers.
    pub fn get_bounds(&self) -> (b: Bounds)
        ensures
            b == self.bbox,
    {
        self.bbox
    }

    /// Builds the hierarchy over every primitive of `list`.
    pub fn create_from_hlist<H: Hittable>(list: &HittableList<H>) -> (r: Option<bvhNode>)
        ensures
            r is Some,
            r->0.wf(list.objects@),
            r->0.leaves().to_multiset() == all_indices(list.objects@.len()).to_multiset(),
            forall|i: usize| #[trigger] r->0.leaves().to_multiset().count(i) == (if i < list.objects@.len() { 1nat } else { 0nat }),
            r->0.bbox == Bounds::union_all(list.objects@.map_values(|o: H| o.spec_bounds())),
    {
        let e = list.objects.len();
        let mut i: Vec<usize> = Vec::new();
        let mut k: usize = 0;
        while k < e
            invariant
                k <= e,
                e == list.objects.len(),
                i@ == all_indices(k as nat),
            decreases e - k,
        {
            i.push(k);
            assert(i@ =~= all_indices((k + 1) as nat));
            k = k + 1;
        }
        let ghost objs = list.objects@;
        assert(boxes_at(objs, i@) =~= objs.map_values(|o: H| o.spec_bounds()));
        let node = bvhNode::from_HittableList(list, i);
        proof {
            lemma_all_indices_count(e as nat);
        }
        Some(node)
    }

    /// Builds the hierarchy over the primitives of `list` at `indices`.
    #[allow(non_snake_case)]
    fn from_HittableList<H: Hittable>(list: &HittableList<H>, indices: Vec<usize>) -> (r: bvhNode)
        requires
            forall|k: int| 0 <= k < indices.len() ==> #[trigger] indices@[k] < list.objects.len(),
        ensures
            r.wf(list.objects@),
            r.leaves().to_multiset() == indices@.to_multiset(),
            r.bbox == Bounds::union_all(boxes_at(list.objects@, indices@)),
        decreases indices.len(),
    {
        let ghost objs = list.objects@;
        let mut bbox = Bounds::new();
        let mut k: usize = 0;
        while k < indices.len()
            invariant
                k <= indices.len(),
                objs == list.objects@,
                forall|j: int| 0 <= j < indices.len() ==> #[trigger] indices@[j] < list.objects.len(),
                bbox == Bounds::union_all(boxes_at(objs, indices@.subrange(0, k as int))),
            decreases indices.len() - k,
        {
            let o = list.objects[indices[k]].get_bounds();
            bbox = bbox.union(&o);
            assert(boxes_at(objs, indices@.subrange(0, k + 1)).drop_last()
                =~= boxes_at(objs, indices@.subrange(0, k as int)));
            k = k + 1;
        }
        assert(indices@.subrange(0, k as int) =~= indices@);
        if indices.len() <= LEAF_CAPACITY {
            return bvhNode { indices, left: None, right: None, bbox };
        }
        let ghost given = indices@;
        let sorted = sort_by_center(list, indices, bbox.getLongestAxis());
        proof {
            lemma_union_all_permuted(objs, sorted@, given);
        }
        let (left, right) = split_at_midpoint(list, &sorted, &bbox);
        if left.len() == 0 || right.len() == 0 {
            proof {
                broadcast use vstd::seq_lib::group_to_multiset_ensures, vstd::multiset::group_multiset_axioms;
                assert forall|j: int| 0 <= j < sorted.len() implies (if left.len() == 0 {
                    !below_mid(objs, #[trigger] sorted@[j], bbox)
                } else {
                    below_mid(objs, sorted@[j], bbox)
                }) by {
                    assert(sorted@.contains(sorted@[j]));
                    assert(sorted@.to_multiset().count(sorted@[j]) > 0);
                    assert(left@.to_multiset().add(right@.to_multiset()) == sorted@.to_multiset());
                    if left.len() == 0 {
                        assert(left@.to_multiset() =~= Multiset::empty());
                        assert(right@.to_multiset().count(sorted@[j]) > 0);
                        assert(right@.contains(sorted@[j]));
                    } else {
                        assert(right@.to_multiset() =~= Multiset::empty());
                        assert(left@.to_multiset().count(sorted@[j]) > 0);
                        assert(left@.contains(sorted@[j]));
                    }
                }
            }
            return bvhNode { indices: sorted, left: None, right: None, bbox };
        }
        let ghost lseq = left@;
        let ghost rseq = right@;
        let l = bvhNode::from_HittableList(list, left);
        let rt = bvhNode::from_HittableList(list, right);
        let node_box = l.bbox.union(&rt.bbox);
        proof {
            broadcast use vstd::seq_lib::group_to_multiset_ensures, vstd::multiset::group_multiset_axioms;
            vstd::seq_lib::lemma_multiset_commutative(l.leaves(), rt.leaves());
            assert(node_box == bbox);
            assert(l.leaves().to_multiset().len() == lseq.len());
            assert(rt.leaves().to_multiset().len() == rseq.len());
            broadcast use vstd::seq_lib::group_to_multiset_ensures;
            assert forall|j: int| 0 <= j < l.leaves().len() implies below_mid(objs, #[trigger] l.leaves()[j], bbox) by {
                let x = l.leaves()[j];
                assert(l.leaves().contains(x));
                assert(l.leaves().to_multiset().count(x) > 0);
                assert(lseq.to_multiset().count(x) > 0);
                assert(lseq.contains(x));
                let k = choose|k: int| 0 <= k < lseq.len() && lseq[k] == x;
                assert(below_mid(objs, lseq[k], bbox));
            }
            assert forall|j: int| 0 <= j < rt.leaves().len() implies !below_mid(objs, #[trigger] rt.leaves()[j], bbox) by {
                let x = rt.leaves()[j];
                assert(rt.leaves().contains(x));
                assert(rt.leaves().to_multiset().count(x) > 0);
                assert(rseq.to_multiset().count(x) > 0);
                assert(rseq.contains(x));
                let k = choose|k: int| 0 <= k < rseq.len() && rseq[k] == x;
                assert(!below_mid(objs, rseq[k], bbox));
            }
        }
        bvhNode {
            indices: Vec::new(),
            left: Some(Box::new(l)),
            right: Some(Box::new(rt)),
            bbox: node_box,
        }
    }
}

/// A hierarchy together with the primitive list it indexes. The list is
/// shared and read-only: the hierarchy always covers exactly its
/// primitives.
pub struct Bvh<H: Hittable> {
    list: Arc<HittableList<H>>,
    root: bvhNode,
}

impl<H: Hittable> Bvh<H> {
    #[verifier::type_invariant]
    spec fn covers_list(self) -> bool {
        &&& self.list.objects@.len() <= usize::MAX
        &&& self.root.wf(self.list.objects@)
        &&& self.root.leaves().to_multiset() == all_indices(self.list.objects@.len()).to_multiset()
    }

    /// The primitives indexed.
    pub closed spec fn objects(self) -> Seq<H> {
        self.list.objects@
    }

    /// The root of the hierarchy.
    pub closed spec fn tree(self) -> bvhNode {
        self.root
    }

    /// Builds the hierarchy over every primitive of `list`.
    pub fn build(list: Arc<HittableList<H>>) -> (r: Bvh<H>)
        ensures
            r.objects() == list.objects@,
            r.tree().wf(list.objects@),
            r.tree().leaves().to_multiset() == all_indices(list.objects@.len()).to_multiset(),
            r.tree().bbox == Bounds::union_all(list.objects@.map_values(|o: H| o.spec_bounds())),
    {
        let n = list.objects.len();
        let root = bvhNode::create_from_hlist(&*list).unwrap();
        assert(n == list.objects@.len());
        Bvh { list, root }
    }

    /// The list the hierarchy was built over.
    pub fn list(&self) -> (r: &HittableList<H>)
        ensures
            r.objects@ == self.objects(),
    {
        &*self.list
    }

    /// The root of the hierarchy, which covers each primitive once.
    pub fn root(&self) -> (r: &bvhNode)
        ensures
            *r == self.tree(),
            r.wf(self.objects()),
            r.leaves().to_multiset() == all_indices(self.objects().len()).to_multiset(),
    {
        proof {
            use_type_invariant(self);
        }
        &self.root
    }

    /// The nearest hit in `(t_min, t_max)` among all the primitives.
    pub fn nearest(&self, r: &H::Ray, t_min: i64, t_max: i64) -> (res: Option<HitRecord>)
        where
            H::Ray: SlabTest,
        ensures
            res == self.tree().spec_intersect(self.objects(), *r, t_min, t_max),
            windows_consistent(self.objects(), *r) && boxes_sound(self.objects(), *r) ==> is_nearest(
                self.objects(),
                *r,
                all_indices(self.objects().len()),
                t_min,
                t_max,
                res,
            ),
    {
        proof {
            use_type_invariant(self);
            if windows_consistent(self.objects(), *r) && boxes_sound(self.objects(), *r) {
                lemma_intersect_nearest(self.root, self.list.objects@, *r, t_min, t_max);
                lemma_same_members(self.root.leaves(), all_indices(self.objects().len()));
                lemma_nearest_same_members(
                    self.objects(),
                    *r,
                    self.root.leaves(),
                    all_indices(self.objects().len()),
                    t_min,
                    t_max,
                    self.root.spec_intersect(self.objects(), *r, t_min, t_max),
                );
            }
        }
        self.root.intersect(&*self.list, r, t_min, t_max)
    }
}

impl<H: Hittable> Hittable for Bvh<H> where H::Ray: SlabTest {
    type Ray = H::Ray;

    open spec fn spec_bounds(&self) -> Bounds {
        self.tree().bbox
    }

    open spec fn spec_hit(&self, r: H::Ray, t_min: i64, t_max: i64) -> Option<i64> {
        match self.tree().spec_intersect(self.objects(), r, t_min, t_max) {
            Some(h) => Some(h.t),
            None => None,
        }
    }

    fn get_bounds(&self) -> (b: Bounds) {
        self.root.bbox
    }

    fn hit(&self, r: &H::Ray, t_min: i64, t_max: i64) -> (h: Option<i64>) {
        match self.nearest(r, t_min, t_max) {
            Some(h) => Some(h.t),
            None => None,
        }
    }
}

/// In a well-formed tree every covered index is in range and its box lies
/// inside the box of each node above it.
pub proof fn lemma_wf_encloses<H: Hittable>(node: bvhNode, objs: Seq<H>)
    requires
        node.wf(objs),
    ensures
        forall|k: int|
            0 <= k < node.leaves().len() ==> #[trigger] node.leaves()[k] < objs.len()
                && node.bbox.encloses(objs[node.leaves()[k] as int].spec_bounds()),
    decreases node,
{
    match node.left {
        Some(l) => match node.right {
            Some(rt) => {
                lemma_wf_encloses(*l, objs);
                lemma_wf_encloses(*rt, objs);
                assert forall|k: int| 0 <= k < node.leaves().len() implies #[trigger] node.leaves()[k] < objs.len()
                    && node.bbox.encloses(objs[node.leaves()[k] as int].spec_bounds()) by {
                    if k < l.leaves().len() {
                        assert(node.leaves()[k] == l.leaves()[k]);
                    } else {
                        assert(node.leaves()[k] == rt.leaves()[k - l.leaves().len()]);
                    }
                }
            },
            None => {},
        },
        None => {
            let bs = boxes_at(objs, node.indices@);
            lemma_union_all_encloses(bs);
            assert forall|k: int| 0 <= k < node.leaves().len() implies #[trigger] node.leaves()[k] < objs.len()
                && node.bbox.encloses(objs[node.leaves()[k] as int].spec_bounds()) by {
                assert(bs[k] == objs[node.indices@[k] as int].spec_bounds());
            }
        },
    }
}

/// The walk of a well-formed tree finds a nearest hit among the primitives
/// it covers.
pub proof fn lemma_intersect_nearest<H: Hittable>(node: bvhNode, objs: Seq<H>, r: H::Ray, lo: i64, hi: i64)
    where
        H::Ray: SlabTest,
    requires
        node.wf(objs),
        windows_consistent(objs, r),
        boxes_sound(objs, r),
    ensures
        is_nearest(objs, r, node.leaves(), lo, hi, node.spec_intersect(objs, r, lo, hi)),
    decreases node,
{
    lemma_wf_encloses(node, objs);
    let idx = node.leaves();
    if !r.spec_slab(node.bbox, lo, hi) {
        assert forall|k: int| 0 <= k < idx.len() implies (#[trigger] objs[idx[k] as int].spec_hit(r, lo, hi)) is None by {
            if objs[idx[k] as int].spec_hit(r, lo, hi) is Some {
                assert(node.bbox.encloses(objs[idx[k] as int].spec_bounds()));
            }
        }
        return;
    }
    match node.left {
        Some(l) => match node.right {
            Some(rt) => {
                let li = l.leaves();
                let ri = rt.leaves();
                lemma_intersect_nearest(*l, objs, r, lo, hi);
                let lh = l.spec_intersect(objs, r, lo, hi);
                let end = match lh {
                    Some(h) => h.t,
                    None => hi,
                };
                lemma_intersect_nearest(*rt, objs, r, lo, end);
                lemma_wf_encloses(*l, objs);
                lemma_wf_encloses(*rt, objs);
                let rh = rt.spec_intersect(objs, r, lo, end);
                assert(idx == li + ri);
                assert(end <= hi) by {
                    if let Some(h) = lh {
                        let k0 = choose|k: int| 0 <= k < li.len() && li[k] == h.index;
                        assert(objs[li[k0] as int].spec_hit(r, lo, hi) == narrowed(objs[li[k0] as int].spec_hit(r, lo, hi), hi));
                    }
                }
                match rh {
                    Some(h) => {
                        let k0 = choose|k: int| 0 <= k < ri.len() && ri[k] == h.index;
                        let hx = ri[k0] as int;
                        assert(objs[hx].spec_hit(r, lo, end) == narrowed(objs[hx].spec_hit(r, lo, end), end));
                        assert(objs[hx].spec_hit(r, lo, end) == narrowed(objs[hx].spec_hit(r, lo, hi), end));
                        assert(idx[li.len() + k0] == h.index);
                        assert forall|k: int| 0 <= k < idx.len() implies match #[trigger] objs[idx[k] as int].spec_hit(r, lo, hi) {
                            Some(t) => h.t <= t,
                            None => true,
                        } by {
                            if k < li.len() {
                                assert(idx[k] == li[k]);
                            } else {
                                let x = ri[k - li.len()] as int;
                                assert(idx[k] == ri[k - li.len()]);
                                assert(objs[x].spec_hit(r, lo, end) == narrowed(objs[x].spec_hit(r, lo, hi), end));
                            }
                        }
                    },
                    None => {
                        match lh {
                            Some(h) => {
                                let k0 = choose|k: int| 0 <= k < li.len() && li[k] == h.index;
                                assert(idx[k0] == h.index);
                                assert forall|k: int| 0 <= k < idx.len() implies match #[trigger] objs[idx[k] as int].spec_hit(r, lo, hi) {
                                    Some(t) => h.t <= t,
                                    None => true,
                                } by {
                                    if k < li.len() {
                                        assert(idx[k] == li[k]);
                                    } else {
                                        let x = ri[k - li.len()] as int;
                                        assert(idx[k] == ri[k - li.len()]);
                                        assert(objs[x].spec_hit(r, lo, end) == narrowed(objs[x].spec_hit(r, lo, hi), end));
                                    }
                                }
                            },
                            None => {
                                assert forall|k: int| 0 <= k < idx.len() implies (#[trigger] objs[idx[k] as int].spec_hit(r, lo, hi)) is None by {
                                    if k < li.len() {
                                        assert(idx[k] == li[k]);
                                    } else {
                                        assert(idx[k] == ri[k - li.len()]);
                                    }
                                }
                            },
                        }
                    },
                }
            },
            None => {},
        },
        None => {
            lemma_scan_nearest(objs, r, node.indices@, lo, hi);
        },
    }
}

/// Two lists with the same multiset of indices have the same members.
pub proof fn lemma_same_members(a: Seq<usize>, b: Seq<usize>)
    requires
        a.to_multiset() == b.to_multiset(),
    ensures
        forall|j: usize| a.contains(j) <==> b.contains(j),
{
    broadcast use vstd::seq_lib::group_to_multiset_ensures;
    assert forall|j: usize| a.contains(j) <==> b.contains(j) by {
        if a.contains(j) {
            assert(a.to_multiset().count(j) > 0);
        }
        if b.contains(j) {
            assert(b.to_multiset().count(j) > 0);
        }
    }
}

/// A nearest hit among the primitives at `a` is a nearest hit among those
/// at any `b` with the same members.
pub proof fn lemma_nearest_same_members<H: Hittable>(
    objs: Seq<H>,
    r: H::Ray,
    a: Seq<usize>,
    b: Seq<usize>,
    lo: i64,
    hi: i64,
    res: Option<HitRecord>,
)
    requires
        is_nearest(objs, r, a, lo, hi, res),
        forall|j: usize| a.contains(j) <==> b.contains(j),
    ensures
        is_nearest(objs, r, b, lo, hi, res),
{
    assert forall|k: int| 0 <= k < b.len() implies match #[trigger] objs[b[k] as int].spec_hit(r, lo, hi) {
        Some(t) => res is Some && res->0.t <= t,
        None => true,
    } && (res is None ==> objs[b[k] as int].spec_hit(r, lo, hi) is None) by {
        assert(b.contains(b[k]));
        let ka = choose|ka: int| 0 <= ka < a.len() && a[ka] == b[k];
        assert(objs[a[ka] as int].spec_hit(r, lo, hi) == objs[b[k] as int].spec_hit(r, lo, hi));
    }
    if let Some(h) = res {
        assert(a.contains(h.index));
    }
}

/// Two nearest hits over the same primitives agree on whether there is a
/// hit, and on its distance.
pub proof fn lemma_nearest_unique<H: Hittable>(
    objs: Seq<H>,
    r: H::Ray,
    a: Seq<usize>,
    b: Seq<usize>,
    lo: i64,
    hi: i64,
    ra: Option<HitRecord>,
    rb: Option<HitRecord>,
)
    requires
        is_nearest(objs, r, a, lo, hi, ra),
        is_nearest(objs, r, b, lo, hi, rb),
        forall|j: usize| a.contains(j) <==> b.contains(j),
    ensures
        ra is Some <==> rb is Some,
        ra is Some ==> ra->0.t == rb->0.t,
{
    if let Some(h) = ra {
        assert(b.contains(h.index));
        let kb = choose|k: int| 0 <= k < b.len() && b[k] == h.index;
        assert(objs[b[kb] as int].spec_hit(r, lo, hi) == Some(h.t));
    }
    if let Some(g) = rb {
        assert(a.contains(g.index));
        let ka = choose|k: int| 0 <= k < a.len() && a[k] == g.index;
        assert(objs[a[ka] as int].spec_hit(r, lo, hi) == Some(g.t));
    }
}

/// A tree built over every primitive of `objs` answers as a scan of the
/// whole list does: it finds a hit exactly when the scan finds one, at the
/// same distance, and the primitive it names is hit at that distance.
///
/// This holds for every ray whose primitives report their nearest
/// intersection in the window they are given, and whose box test never
/// misses a box around a primitive that is hit.
pub proof fn lemma_tree_matches_scan<H: Hittable>(tree: bvhNode, objs: Seq<H>, r: H::Ray, t_min: i64, t_max: i64)
    where
        H::Ray: SlabTest,
    requires
        objs.len() <= usize::MAX,
        tree.wf(objs),
        tree.leaves().to_multiset() == all_indices(objs.len()).to_multiset(),
        windows_consistent(objs, r),
        boxes_sound(objs, r),
    ensures
        ({
            let a = tree.spec_intersect(objs, r, t_min, t_max);
            let b = scan(objs, r, all_indices(objs.len()), t_min, t_max);
            &&& (a is Some <==> b is Some)
            &&& (a is Some ==> a->0.t == b->0.t && objs[a->0.index as int].spec_hit(r, t_min, t_max) == Some(a->0.t))
        }),
{
    let all = all_indices(objs.len());
    lemma_intersect_nearest(tree, objs, r, t_min, t_max);
    lemma_scan_nearest(objs, r, all, t_min, t_max);
    lemma_same_members(tree.leaves(), all);
    lemma_nearest_unique(
        objs,
        r,
        tree.leaves(),
        all,
        t_min,
        t_max,
        tree.spec_intersect(objs, r, t_min, t_max),
        scan(objs, r, all, t_min, t_max),
    );
}

proof fn lemma_all_indices_count(n: nat)
    requires
        n <= usize::MAX,
    ensures
        forall|i: usize| #[trigger] all_indices(n).to_multiset().count(i) == (if i < n { 1nat } else { 0nat }),
    decreases n,
{
    broadcast use vstd::seq_lib::group_to_multiset_ensures, vstd::multiset::group_multiset_axioms;

    if n > 0 {
        lemma_all_indices_count((n - 1) as nat);
        assert(all_indices(n) =~= all_indices((n - 1) as nat).push((n - 1) as usize));
    }
}

} // verus!
