use raytracing_one_weekend::bvh::{bvhNode, Bounds, Bvh, LEAF_CAPACITY};
use std::sync::Arc;
use raytracing_one_weekend::hit::{HitRecord, Hittable, HittableList, SlabTest};
use raytracing_one_weekend::vectors::Vector3;
use std::cell::Cell;

/// A ray along +x from (0, y, z); the distance key is the x coordinate.
struct XRay {
    y: i64,
    z: i64,
    box_tests: Cell<usize>,
}

fn xray(y: i64, z: i64) -> XRay {
    XRay { y, z, box_tests: Cell::new(0) }
}

impl SlabTest for XRay {
    fn spec_slab(&self, b: Bounds, t_min: i64, t_max: i64) -> bool {
        self.slab(&b, t_min, t_max)
    }

    fn slab(&self, b: &Bounds, t_min: i64, t_max: i64) -> bool {
        self.box_tests.set(self.box_tests.get() + 1);
        b.min.y <= self.y
            && self.y <= b.max.y
            && b.min.z <= self.z
            && self.z <= b.max.z
            && b.max.x > t_min
            && b.min.x < t_max
    }
}

/// An axis-aligned cube: an x-ray through it meets it at its two x faces.
struct Cube {
    c: Vector3<i64>,
    r: i64,
}

fn cube(x: i64, y: i64, z: i64, r: i64) -> Cube {
    Cube { c: Vector3 { x, y, z }, r }
}

impl Hittable for Cube {
    type Ray = XRay;

    fn spec_bounds(&self) -> Bounds {
        self.get_bounds()
    }

    fn spec_hit(&self, ray: XRay, t_min: i64, t_max: i64) -> Option<i64> {
        self.hit(&ray, t_min, t_max)
    }

    fn get_bounds(&self) -> Bounds {
        Bounds::fromSphere(self.c, self.r)
    }

    fn hit(&self, ray: &XRay, t_min: i64, t_max: i64) -> Option<i64> {
        if (ray.y - self.c.y).abs() > self.r || (ray.z - self.c.z).abs() > self.r {
            return None;
        }
        for t in [self.c.x - self.r, self.c.x + self.r] {
            if t_min < t && t < t_max {
                return Some(t);
            }
        }
        None
    }
}

fn list_of(cubes: Vec<Cube>) -> HittableList<Cube> {
    let mut l = HittableList { objects: vec![], bbox: Bounds::new() };
    for c in cubes {
        l.add(c);
    }
    l
}

/// A small deterministic generator for scattered scenes.
struct Lcg(u64);

impl Lcg {
    fn next(&mut self, n: u64) -> i64 {
        self.0 = self.0.wrapping_mul(6364136223846793005).wrapping_add(1442695040888963407);
        ((self.0 >> 33) % n) as i64
    }
}

fn leaf_depth_ok(n: &bvhNode) {
    match (&n.left, &n.right) {
        (Some(l), Some(r)) => {
            assert!(n.indices.is_empty());
            assert!(!l.leaf_indices().is_empty());
            assert!(!r.leaf_indices().is_empty());
            leaf_depth_ok(l);
            leaf_depth_ok(r);
        }
        (None, None) => {}
        _ => panic!("a node with one child"),
    }
}

#[test]
fn empty_list_gives_an_always_miss_leaf() {
    let list = list_of(vec![]);
    let tree = bvhNode::create_from_hlist(&list).unwrap();
    assert!(tree.left.is_none() && tree.right.is_none());
    assert!(tree.leaf_indices().is_empty());
    assert_eq!(tree.bbox.min, Bounds::new().min);
    assert_eq!(tree.bbox.max, Bounds::new().max);
    let ray = xray(0, 0);
    assert_eq!(tree.intersect(&list, &ray, i64::MIN, i64::MAX), None);
}

#[test]
fn small_list_is_one_leaf() {
    let list = list_of((0..LEAF_CAPACITY as i64).map(|i| cube(10 * i, 0, 0, 1)).collect());
    let tree = bvhNode::create_from_hlist(&list).unwrap();
    assert!(tree.left.is_none());
    assert_eq!(tree.leaf_indices(), (0..LEAF_CAPACITY).collect::<Vec<usize>>());
    assert_eq!(tree.bbox.min, Vector3 { x: -1, y: -1, z: -1 });
    assert_eq!(tree.bbox.max, Vector3 { x: 111, y: 1, z: 1 });
}

#[test]
fn thirteen_primitives_split_at_the_midpoint() {
    let list = list_of((0..13).map(|i| cube(10 * i, 0, 0, 1)).collect());
    let tree = bvhNode::create_from_hlist(&list).unwrap();
    let l = tree.left.as_ref().unwrap();
    let r = tree.right.as_ref().unwrap();
    // Box from -1 to 121 on x: midpoint 60. Centers 0..50 go left, 60.. right.
    assert_eq!(l.leaf_indices(), vec![0, 1, 2, 3, 4, 5]);
    assert_eq!(r.leaf_indices(), vec![6, 7, 8, 9, 10, 11, 12]);
    assert_eq!(tree.bbox.min, Vector3 { x: -1, y: -1, z: -1 });
    assert_eq!(tree.bbox.max, Vector3 { x: 121, y: 1, z: 1 });
}

#[test]
fn coincident_centers_stay_in_one_leaf() {
    let list = list_of((0..40).map(|_| cube(5, 5, 5, 2)).collect());
    let tree = bvhNode::create_from_hlist(&list).unwrap();
    assert!(tree.left.is_none() && tree.right.is_none());
    assert_eq!(tree.leaf_indices().len(), 40);
}

#[test]
fn every_primitive_in_exactly_one_leaf() {
    let mut g = Lcg(7);
    let list = list_of((0..5000).map(|_| cube(g.next(1000), g.next(1000), g.next(1000), 1 + g.next(5))).collect());
    let tree = bvhNode::create_from_hlist(&list).unwrap();
    let mut seen = tree.leaf_indices();
    assert_eq!(seen.len(), 5000);
    seen.sort();
    assert_eq!(seen, (0..5000).collect::<Vec<usize>>());
    leaf_depth_ok(&tree);
}

fn t_of(h: Option<HitRecord>) -> Option<i64> {
    h.map(|h| h.t)
}

#[test]
fn tree_agrees_with_linear_scan() {
    let mut g = Lcg(11);
    let list = list_of((0..3000).map(|_| cube(g.next(400), g.next(60), g.next(60), 1 + g.next(4))).collect());
    let tree = bvhNode::create_from_hlist(&list).unwrap();
    let mut hits = 0;
    for y in 0..60 {
        for z in 0..60 {
            for (lo, hi) in [(i64::MIN, i64::MAX), (0, 200), (150, 151), (37, 390)] {
                let ray = xray(y, z);
                let a = tree.intersect(&list, &ray, lo, hi);
                let b = list.nearest(&ray, lo, hi);
                assert_eq!(t_of(a), t_of(b));
                if let Some(h) = a {
                    hits += 1;
                    assert_eq!(list.objects[h.index].hit(&ray, lo, hi), Some(h.t));
                }
                assert_eq!(list.hit(&ray, lo, hi), t_of(b));
            }
        }
    }
    assert!(hits > 1000);
}

#[test]
fn overlapping_children_still_find_the_nearer_hit() {
    // One long cube whose box spans both halves, hit late, and a small one
    // on the far side hit early.
    let mut cubes: Vec<Cube> = (0..20).map(|i| cube(100 + 10 * i, 50, 50, 1)).collect();
    cubes.push(cube(400, 0, 0, 300));
    cubes.push(cube(350, 0, 0, 1));
    let list = list_of(cubes);
    let tree = bvhNode::create_from_hlist(&list).unwrap();
    let ray = xray(0, 0);
    let a = tree.intersect(&list, &ray, 0, i64::MAX);
    assert_eq!(a, Some(HitRecord { index: 20, t: 100 }));
    let a = tree.intersect(&list, &ray, 100, i64::MAX);
    assert_eq!(a, Some(HitRecord { index: 21, t: 349 }));
}

#[test]
fn window_is_strict_at_both_ends() {
    let list = list_of(vec![cube(10, 0, 0, 2)]);
    let tree = bvhNode::create_from_hlist(&list).unwrap();
    let ray = xray(0, 0);
    // Faces at 8 and 12.
    assert_eq!(t_of(tree.intersect(&list, &ray, 0, 100)), Some(8));
    // Starting on the near face: that face is not reported again.
    assert_eq!(t_of(tree.intersect(&list, &ray, 8, 100)), Some(12));
    assert_eq!(t_of(tree.intersect(&list, &ray, 0, 8)), None);
    assert_eq!(t_of(tree.intersect(&list, &ray, 12, 100)), None);
}

#[test]
fn nearest_of_two_roots_is_selected() {
    let list = list_of(vec![cube(50, 0, 0, 5)]);
    let ray = xray(0, 0);
    assert_eq!(list.nearest(&ray, 0, 1000), Some(HitRecord { index: 0, t: 45 }));
    assert_eq!(list.nearest(&ray, 45, 1000), Some(HitRecord { index: 0, t: 55 }));
    assert_eq!(list.nearest(&ray, 0, 45), None);
}

#[test]
fn equal_distances_keep_the_first_in_a_scan() {
    let list = list_of(vec![cube(10, 0, 0, 1), cube(10, 0, 0, 1)]);
    let ray = xray(0, 0);
    assert_eq!(list.nearest(&ray, 0, 100), Some(HitRecord { index: 0, t: 9 }));
}

#[test]
fn list_add_clear_and_generate() {
    let mut list = list_of(vec![cube(0, 0, 0, 1)]);
    list.generateBVH(cube(5, 0, 0, 1));
    assert_eq!(list.objects.len(), 2);
    assert_eq!(list.objects[1].c.x, 5);
    list.clear();
    assert!(list.objects.is_empty());
}

#[test]
fn from_hittables_is_union_of_boxes() {
    let list = list_of(vec![cube(0, 0, 0, 1), cube(10, -4, 2, 2)]);
    let b = Bounds::from_hittables(&list.objects);
    assert_eq!(b.min, Vector3 { x: -1, y: -6, z: -1 });
    assert_eq!(b.max, Vector3 { x: 12, y: 1, z: 4 });
    let e = Bounds::from_hittables(&Vec::<Cube>::new());
    assert_eq!(e.min, Bounds::new().min);
}

#[test]
fn million_spheres_traversal_is_sublinear() {
    // Unit primitives on a jittered lattice, spacing 4: none overlap.
    let mut g = Lcg(3);
    let mut cubes = Vec::with_capacity(1_000_000);
    for i in 0..100 {
        for j in 0..100 {
            for k in 0..100 {
                cubes.push(cube(4 * i + g.next(2), 4 * j + g.next(2), 4 * k + g.next(2), 1));
            }
        }
    }
    let list = list_of(cubes);
    let tree = bvhNode::create_from_hlist(&list).unwrap();
    let levels = (1_000_000f64 / LEAF_CAPACITY as f64).log2();
    let mut worst = 0;
    for s in 0..200 {
        let ray = xray(g.next(400), g.next(400));
        let _ = tree.intersect(&list, &ray, -10, i64::MAX);
        worst = worst.max(ray.box_tests.get());
        let _ = s;
    }
    assert!((worst as f64) < 8.0 * levels, "worst {} box tests", worst);
}

#[test]
fn shared_hierarchy_answers_as_the_scan() {
    let mut g = Lcg(5);
    let list = Arc::new(list_of((0..800).map(|_| cube(g.next(300), g.next(30), g.next(30), 1 + g.next(3))).collect()));
    let bvh = Bvh::build(Arc::clone(&list));
    assert_eq!(bvh.list().objects.len(), 800);
    let mut seen = bvh.root().leaf_indices();
    seen.sort();
    assert_eq!(seen, (0..800).collect::<Vec<usize>>());
    let whole = Bounds::from_hittables(&list.objects);
    assert_eq!(bvh.get_bounds().min, whole.min);
    assert_eq!(bvh.get_bounds().max, whole.max);
    assert_eq!(bvh.root().get_bounds().max, whole.max);
    for y in 0..30 {
        for z in 0..30 {
            let ray = xray(y, z);
            let a = bvh.nearest(&ray, 0, i64::MAX);
            let b = list.nearest(&ray, 0, i64::MAX);
            assert_eq!(t_of(a), t_of(b));
            assert_eq!(bvh.hit(&ray, 0, i64::MAX), t_of(b));
        }
    }
}

#[test]
fn leaves_are_sorted_by_center() {
    // Fourteen cubes in reverse order along x, plus spread along y so that
    // x is the longest axis: each leaf lists its cubes by ascending center.
    let list = list_of((0..14).rev().map(|i| cube(10 * i, i % 2, 0, 1)).collect());
    let tree = bvhNode::create_from_hlist(&list).unwrap();
    let l = tree.left.as_ref().unwrap();
    let r = tree.right.as_ref().unwrap();
    // Box from -1 to 131 on x: midpoint 65. Centers 0..60 go left.
    assert_eq!(l.leaf_indices(), vec![13, 12, 11, 10, 9, 8, 7]);
    assert_eq!(r.leaf_indices(), vec![6, 5, 4, 3, 2, 1, 0]);
}
