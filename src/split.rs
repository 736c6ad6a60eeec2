use crate::bounds::{axis, lemma_union_all_encloses, lemma_union_all_tight, Bounds};
use crate::hit::{Hittable, HittableList};
use crate::vectors::coord;
use vstd::multiset::Multiset;
use vstd::prelude::*;

verus! {

/// The boxes of the primitives at `idx`, in that order.
pub open spec fn boxes_at<H: Hittable>(objs: Seq<H>, idx: Seq<usize>) -> Seq<Bounds> {
    idx.map_values(|i: usize| objs[i as int].spec_bounds())
}

/// Whether primitive `i` lies below the midpoint of `b` along the longest
/// axis of `b`, comparing the midpoint of its own box.
pub open spec fn below_mid<H: Hittable>(objs: Seq<H>, i: usize, b: Bounds) -> bool {
    objs[i as int].spec_bounds().center2(b.longest_axis()) < b.center2(b.longest_axis())
}

/// The primitives at `idx` whose box's midpoint lies below (or, for
/// `below == false`, not below) that of `b` along the longest axis of `b`.
pub open spec fn side_of<H: Hittable>(objs: Seq<H>, idx: Seq<usize>, b: Bounds, below: bool) -> Seq<usize> {
    idx.filter(side_pred(objs, b, below))
}

pub open spec fn side_pred<H: Hittable>(objs: Seq<H>, b: Bounds, below: bool) -> spec_fn(usize) -> bool {
    |i: usize| below_mid(objs, i, b) == below
}

/// Splits `indices` at the midpoint of `bbox` along its longest axis: the
/// primitives whose own box's midpoint lies below it go left, the others
/// right, each side in the order of `indices`.
pub(crate) fn split_at_midpoint<H: Hittable>(list: &HittableList<H>, indices: &Vec<usize>, bbox: &Bounds) -> (res: (Vec<usize>, Vec<usize>))
    requires
        forall|k: int| 0 <= k < indices.len() ==> #[trigger] indices@[k] < list.objects.len(),
    ensures
        res.0@ == side_of(list.objects@, indices@, *bbox, true),
        res.1@ == side_of(list.objects@, indices@, *bbox, false),
        res.0@.to_multiset().add(res.1@.to_multiset()) == indices@.to_multiset(),
        res.0@.len() + res.1@.len() == indices@.len(),
        Bounds::union_all(boxes_at(list.objects@, res.0@)).spec_union(Bounds::union_all(boxes_at(list.objects@, res.1@)))
            == Bounds::union_all(boxes_at(list.objects@, indices@)),
        forall|j: int| 0 <= j < res.0@.len() ==> #[trigger] res.0@[j] < list.objects.len() && below_mid(list.objects@, res.0@[j], *bbox),
        forall|j: int| 0 <= j < res.1@.len() ==> #[trigger] res.1@[j] < list.objects.len() && !below_mid(list.objects@, res.1@[j], *bbox),
{
    let ghost objs = list.objects@;
    let a = bbox.getLongestAxis();
    let mid = bbox.center_twice(a);
    let mut left: Vec<usize> = Vec::new();
    let mut right: Vec<usize> = Vec::new();
    let mut k: usize = 0;
    proof {
        broadcast use vstd::seq_lib::group_to_multiset_ensures, vstd::multiset::group_multiset_axioms;
        assert(indices@.subrange(0, 0) =~= Seq::<usize>::empty());
        assert(left@.to_multiset() =~= Multiset::empty());
        assert(right@.to_multiset() =~= Multiset::empty());
        assert(Bounds::empty().spec_union(Bounds::empty()) == Bounds::empty());
    }
    while k < indices.len()
        invariant
            k <= indices.len(),
            objs == list.objects@,
            a == bbox.longest_axis(),
            mid == bbox.center2(a),
            forall|j: int| 0 <= j < indices.len() ==> #[trigger] indices@[j] < list.objects.len(),
            left@ == side_of(objs, indices@.subrange(0, k as int), *bbox, true),
            right@ == side_of(objs, indices@.subrange(0, k as int), *bbox, false),
            left@.to_multiset().add(right@.to_multiset()) == indices@.subrange(0, k as int).to_multiset(),
            left@.len() + right@.len() == k,
            Bounds::union_all(boxes_at(objs, left@)).spec_union(Bounds::union_all(boxes_at(objs, right@)))
                == Bounds::union_all(boxes_at(objs, indices@.subrange(0, k as int))),
            forall|j: int| 0 <= j < left.len() ==> #[trigger] left@[j] < list.objects.len() && below_mid(objs, left@[j], *bbox),
            forall|j: int| 0 <= j < right.len() ==> #[trigger] right@[j] < list.objects.len() && !below_mid(objs, right@[j], *bbox),
        decreases indices.len() - k,
    {
        let i = indices[k];
        let c = list.objects[i].get_bounds().center_twice(a);
        let ghost sub = indices@.subrange(0, k as int);
        let ghost bl = Bounds::union_all(boxes_at(objs, left@));
        let ghost br = Bounds::union_all(boxes_at(objs, right@));
        let ghost bi = objs[i as int].spec_bounds();
        assert(indices@.subrange(0, k + 1) =~= sub.push(i));
        assert(indices@.subrange(0, k + 1).drop_last() =~= sub);
        assert(boxes_at(objs, sub.push(i)).drop_last() =~= boxes_at(objs, sub));
        proof {
            sub.lemma_filter_push(i, side_pred(objs, *bbox, true));
            sub.lemma_filter_push(i, side_pred(objs, *bbox, false));
            broadcast use vstd::seq_lib::group_to_multiset_ensures, vstd::multiset::group_multiset_axioms;
        }
        if c < mid {
            assert(boxes_at(objs, left@.push(i)).drop_last() =~= boxes_at(objs, left@));
            assert(bl.spec_union(bi).spec_union(br) == bl.spec_union(br).spec_union(bi));
            left.push(i);
        } else {
            assert(boxes_at(objs, right@.push(i)).drop_last() =~= boxes_at(objs, right@));
            assert(bl.spec_union(br.spec_union(bi)) == bl.spec_union(br).spec_union(bi));
            right.push(i);
        }
        k = k + 1;
    }
    assert(indices@.subrange(0, k as int) =~= indices@);
    (left, right)
}

/// Twice the midpoint of primitive `i`'s box along axis `a`: the key the
/// build sorts by.
pub open spec fn center_key<H: Hittable>(objs: Seq<H>, i: usize, a: axis) -> int {
    objs[i as int].spec_bounds().center2(a)
}

/// `s` is in ascending order of [`center_key`] along axis `a`.
pub open spec fn sorted_by_center<H: Hittable>(objs: Seq<H>, s: Seq<usize>, a: axis) -> bool {
    forall|p: int, q: int| 0 <= p < q < s.len() ==> center_key(objs, #[trigger] s[p], a) <= center_key(objs, #[trigger] s[q], a)
}

/// Merges two lists sorted by center along `a`; on equal keys the entry of
/// `lo` comes first.
fn merge_by_center<H: Hittable>(list: &HittableList<H>, lo: &Vec<usize>, hi: &Vec<usize>, a: axis) -> (r: Vec<usize>)
    requires
        forall|k: int| 0 <= k < lo.len() ==> #[trigger] lo@[k] < list.objects.len(),
        forall|k: int| 0 <= k < hi.len() ==> #[trigger] hi@[k] < list.objects.len(),
        sorted_by_center(list.objects@, lo@, a),
        sorted_by_center(list.objects@, hi@, a),
    ensures
        r@.to_multiset() == lo@.to_multiset().add(hi@.to_multiset()),
        r@.len() == lo@.len() + hi@.len(),
        forall|k: int| 0 <= k < r.len() ==> #[trigger] r@[k] < list.objects.len(),
        sorted_by_center(list.objects@, r@, a),
{
    let ghost objs = list.objects@;
    let mut r: Vec<usize> = Vec::new();
    let mut i: usize = 0;
    let mut j: usize = 0;
    proof {
        broadcast use vstd::seq_lib::group_to_multiset_ensures, vstd::multiset::group_multiset_axioms;
        assert(lo@.subrange(0, 0) =~= Seq::<usize>::empty());
        assert(hi@.subrange(0, 0) =~= Seq::<usize>::empty());
        assert(r@.to_multiset() =~= Multiset::empty());
    }
    while i < lo.len() || j < hi.len()
        invariant
            i <= lo.len(),
            j <= hi.len(),
            objs == list.objects@,
            r@.len() == i + j,
            forall|k: int| 0 <= k < lo.len() ==> #[trigger] lo@[k] < list.objects.len(),
            forall|k: int| 0 <= k < hi.len() ==> #[trigger] hi@[k] < list.objects.len(),
            sorted_by_center(objs, lo@, a),
            sorted_by_center(objs, hi@, a),
            forall|k: int| 0 <= k < r.len() ==> #[trigger] r@[k] < list.objects.len(),
            sorted_by_center(objs, r@, a),
            r@.to_multiset() == lo@.subrange(0, i as int).to_multiset().add(hi@.subrange(0, j as int).to_multiset()),
            r@.len() > 0 && i < lo.len() ==> center_key(objs, r@.last(), a) <= center_key(objs, lo@[i as int], a),
            r@.len() > 0 && j < hi.len() ==> center_key(objs, r@.last(), a) <= center_key(objs, hi@[j as int], a),
        decreases lo.len() + hi.len() - i - j,
    {
        proof {
            broadcast use vstd::seq_lib::group_to_multiset_ensures, vstd::multiset::group_multiset_axioms;
        }
        let take_lo = if i < lo.len() && j < hi.len() {
            let kl = list.objects[lo[i]].get_bounds().center_twice(a);
            let kh = list.objects[hi[j]].get_bounds().center_twice(a);
            kl <= kh
        } else {
            i < lo.len()
        };
        let ghost old_r = r@;
        if take_lo {
            let x = lo[i];
            assert(lo@.subrange(0, i + 1) =~= lo@.subrange(0, i as int).push(x));
            r.push(x);
            i = i + 1;
            assert(forall|q: int| i <= q < lo.len() ==> center_key(objs, x, a) <= center_key(objs, #[trigger] lo@[q], a)) by {
                assert(forall|q: int| i <= q < lo.len() ==> center_key(objs, lo@[i - 1], a) <= center_key(objs, #[trigger] lo@[q], a));
            }
        } else {
            let x = hi[j];
            assert(hi@.subrange(0, j + 1) =~= hi@.subrange(0, j as int).push(x));
            r.push(x);
            j = j + 1;
            assert(forall|q: int| j <= q < hi.len() ==> center_key(objs, x, a) <= center_key(objs, #[trigger] hi@[q], a)) by {
                assert(forall|q: int| j <= q < hi.len() ==> center_key(objs, hi@[j - 1], a) <= center_key(objs, #[trigger] hi@[q], a));
            }
        }
        assert(r@.last() == r@[r@.len() - 1]);
        assert(forall|p: int| 0 <= p < old_r.len() ==> r@[p] == old_r[p]);
        assert(sorted_by_center(objs, r@, a)) by {
            assert forall|p: int, q: int| 0 <= p < q < r@.len() implies center_key(objs, #[trigger] r@[p], a) <= center_key(objs, #[trigger] r@[q], a) by {
                if q == r@.len() - 1 && p < q && old_r.len() > 0 {
                    assert(old_r.last() == old_r[old_r.len() - 1]);
                    if p < old_r.len() - 1 {
                        assert(center_key(objs, old_r[p], a) <= center_key(objs, old_r[old_r.len() - 1], a));
                    }
                }
            }
        }
    }
    assert(lo@.subrange(0, i as int) =~= lo@);
    assert(hi@.subrange(0, j as int) =~= hi@);
    r
}

/// Sorts `idx` by the midpoint of each primitive's box along axis `a`;
/// equal keys keep their order.
pub(crate) fn sort_by_center<H: Hittable>(list: &HittableList<H>, idx: Vec<usize>, a: axis) -> (r: Vec<usize>)
    requires
        forall|k: int| 0 <= k < idx.len() ==> #[trigger] idx@[k] < list.objects.len(),
    ensures
        r@.to_multiset() == idx@.to_multiset(),
        r@.len() == idx@.len(),
        forall|k: int| 0 <= k < r.len() ==> #[trigger] r@[k] < list.objects.len(),
        sorted_by_center(list.objects@, r@, a),
    decreases idx.len(),
{
    if idx.len() <= 1 {
        return idx;
    }
    let mut lo = idx;
    let ghost whole = lo@;
    let hi = lo.split_off(lo.len() / 2);
    proof {
        assert(whole =~= lo@ + hi@);
        vstd::seq_lib::lemma_multiset_commutative(lo@, hi@);
        assert forall|k: int| 0 <= k < hi.len() implies #[trigger] hi@[k] < list.objects.len() by {
            assert(hi@[k] == whole[k + lo.len()]);
        }
        assert forall|k: int| 0 <= k < lo.len() implies #[trigger] lo@[k] < list.objects.len() by {
            assert(lo@[k] == whole[k]);
        }
    }
    let lo = sort_by_center(list, lo, a);
    let hi = sort_by_center(list, hi, a);
    merge_by_center(list, &lo, &hi, a)
}

/// Every primitive at `s2` is also at `s1`, so the union of the boxes at
/// `s1` reaches at least as far as that at `s2` along axis `a`.
proof fn lemma_union_all_reaches<H: Hittable>(objs: Seq<H>, s1: Seq<usize>, s2: Seq<usize>, a: axis)
    requires
        forall|i: usize| s2.contains(i) ==> s1.contains(i),
    ensures
        coord(Bounds::union_all(boxes_at(objs, s1)).min, a) <= coord(Bounds::union_all(boxes_at(objs, s2)).min, a),
        coord(Bounds::union_all(boxes_at(objs, s2)).max, a) <= coord(Bounds::union_all(boxes_at(objs, s1)).max, a),
{
    let b1 = boxes_at(objs, s1);
    let b2 = boxes_at(objs, s2);
    let u1 = Bounds::union_all(b1);
    lemma_union_all_encloses(b1);
    assert forall|k: int| 0 <= k < b2.len() implies u1.encloses(#[trigger] b2[k]) by {
        assert(s2.contains(s2[k]));
        let j = choose|j: int| 0 <= j < s1.len() && s1[j] == s2[k];
        assert(b1[j] == b2[k]);
        assert(u1.encloses(b1[j]));
    }
    assert forall|k: int| 0 <= k < b2.len() implies coord(u1.min, a) <= coord(#[trigger] b2[k].min, a) by {
        assert(u1.encloses(b2[k]));
    }
    assert forall|k: int| 0 <= k < b2.len() implies coord(#[trigger] b2[k].max, a) <= coord(u1.max, a) by {
        assert(u1.encloses(b2[k]));
    }
    lemma_union_all_tight(b2, a, coord(u1.min, a));
    lemma_union_all_tight(b2, a, coord(u1.max, a));
}

/// The union of the boxes at `s1` and at `s2` are the same when the two
/// hold the same indices.
pub proof fn lemma_union_all_permuted<H: Hittable>(objs: Seq<H>, s1: Seq<usize>, s2: Seq<usize>)
    requires
        s1.to_multiset() == s2.to_multiset(),
    ensures
        Bounds::union_all(boxes_at(objs, s1)) == Bounds::union_all(boxes_at(objs, s2)),
{
    broadcast use vstd::seq_lib::group_to_multiset_ensures;
    assert forall|i: usize| s1.contains(i) <==> s2.contains(i) by {
        if s1.contains(i) {
            assert(s1.to_multiset().count(i) > 0);
        }
        if s2.contains(i) {
            assert(s2.to_multiset().count(i) > 0);
        }
    }
    lemma_union_all_reaches(objs, s1, s2, axis::x);
    lemma_union_all_reaches(objs, s2, s1, axis::x);
    lemma_union_all_reaches(objs, s1, s2, axis::y);
    lemma_union_all_reaches(objs, s2, s1, axis::y);
    lemma_union_all_reaches(objs, s1, s2, axis::z);
    lemma_union_all_reaches(objs, s2, s1, axis::z);
}

} // verus!
