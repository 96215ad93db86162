//! Sorting a group of shapes into buckets along one axis, and choosing where
//! to cut the row of buckets in two.

use vstd::prelude::*;
use vstd::seq_lib::*;
use vstd::multiset::*;
use crate::aabb::{lower, upper, Axis, Bounded, Point3, AABB};
use crate::cost::{costs_less, split_weight, SplitCost};

verus! {

/// How many buckets a group of shapes is sorted into before it is split.
pub const NUM_BUCKETS: usize = 6;

/// The bounding boxes of `shapes`, in the same order.
pub open spec fn boxes_of<T: Bounded>(shapes: Seq<T>) -> Seq<AABB> {
    Seq::new(shapes.len(), |i: int| shapes[i].spec_aabb())
}

/// The join of the boxes of all shapes listed in `indices`.
pub open spec fn hull(boxes: Seq<AABB>, indices: Seq<usize>) -> AABB
    decreases indices.len(),
{
    if indices.len() == 0 {
        AABB::spec_empty()
    } else {
        hull(boxes, indices.drop_last()).spec_join(&boxes[indices.last() as int])
    }
}

/// The smallest box that holds the centres of the boxes of all shapes listed
/// in `indices`.
pub open spec fn centroid_hull(boxes: Seq<AABB>, indices: Seq<usize>) -> AABB
    decreases indices.len(),
{
    if indices.len() == 0 {
        AABB::spec_empty()
    } else {
        centroid_hull(boxes, indices.drop_last()).spec_grow(
            &boxes[indices.last() as int].spec_center(),
        )
    }
}

/// The row of buckets that a group of shapes is sorted into: `NUM_BUCKETS`
/// buckets side by side along `axis`, which together cover the coordinates from
/// `start` to `start + extent`.
#[derive(Clone, Copy, Debug, PartialEq, Eq, Structural)]
pub struct Binning {
    pub axis: Axis,
    pub start: i32,
    pub extent: u32,
}

impl Binning {
    /// The row of buckets for the group `indices`: along the axis on which the
    /// centres of the group spread the most, from the least centre to the
    /// greatest.
    pub open spec fn of(boxes: Seq<AABB>, indices: Seq<usize>) -> Binning {
        Binning::across(centroid_hull(boxes, indices))
    }

    /// The row of buckets that spans `centroids` along its largest axis.
    pub open spec fn across(centroids: AABB) -> Binning {
        let axis = centroids.spec_largest_axis();
        Binning {
            axis,
            start: centroids.min.coord(axis) as i32,
            extent: centroids.spec_extent(axis) as u32,
        }
    }

    /// How far the centre of `shape` lies beyond `start` along the axis.
    pub open spec fn offset(&self, shape: &AABB) -> int {
        shape.spec_center().coord(self.axis) - self.start
    }

    /// Whether the centre of `shape` lies within the row.
    pub open spec fn covers(&self, shape: &AABB) -> bool {
        0 <= self.offset(shape) <= self.extent
    }

    /// The number of the bucket that `shape` falls into: its relative position
    /// in the row, `offset / extent`, times `5.99`, rounded down. The factor is
    /// a little short of `NUM_BUCKETS` so that a shape at the far end still
    /// falls into the last bucket.
    pub open spec fn spec_bucket_of(&self, shape: &AABB) -> int {
        (599 * self.offset(shape)) / (100 * self.extent)
    }

    /// The test that picks the shapes of bucket `bucket` out of a list of
    /// indices.
    pub open spec fn falls_into(&self, boxes: Seq<AABB>, bucket: int) -> spec_fn(usize) -> bool {
        |i: usize| self.spec_bucket_of(&boxes[i as int]) == bucket
    }

    /// The shapes of `indices` that fall into bucket `bucket`, in the order in
    /// which `indices` lists them.
    pub open spec fn members(&self, boxes: Seq<AABB>, indices: Seq<usize>, bucket: int) -> Seq<
        usize,
    > {
        indices.filter(self.falls_into(boxes, bucket))
    }

    /// The members of the buckets `from`, `from + 1`, ... up to but not
    /// including `to`, bucket after bucket.
    pub open spec fn gathered(
        &self,
        boxes: Seq<AABB>,
        indices: Seq<usize>,
        from: int,
        to: int,
    ) -> Seq<usize>
        decreases to - from,
    {
        if to <= from {
            Seq::empty()
        } else {
            self.gathered(boxes, indices, from, to - 1) + self.members(boxes, indices, to - 1)
        }
    }

    /// The shapes on the left of the cut behind bucket `cut`.
    pub open spec fn left_of(&self, boxes: Seq<AABB>, indices: Seq<usize>, cut: int) -> Seq<usize> {
        self.gathered(boxes, indices, 0, cut + 1)
    }

    /// The shapes on the right of the cut behind bucket `cut`.
    pub open spec fn right_of(&self, boxes: Seq<AABB>, indices: Seq<usize>, cut: int) -> Seq<
        usize,
    > {
        self.gathered(boxes, indices, cut + 1, NUM_BUCKETS as int)
    }

    /// The weight of the cut behind bucket `cut`: the surface area of each
    /// side's hull, counted once per shape on that side.
    pub open spec fn weight_of(&self, boxes: Seq<AABB>, indices: Seq<usize>, cut: int) -> nat {
        let left = self.left_of(boxes, indices, cut);
        let right = self.right_of(boxes, indices, cut);
        split_weight(left.len(), hull(boxes, left), right.len(), hull(boxes, right))
    }

    /// The cheapest cut among those behind the buckets `0` to `last`, where the
    /// cost of a cut is its weight divided by the surface area of the whole
    /// group's hull. Among cuts of the same cost the first one wins.
    pub open spec fn best_cut(&self, boxes: Seq<AABB>, indices: Seq<usize>, last: int) -> int
        decreases last,
    {
        if last <= 0 {
            0
        } else {
            let best = self.best_cut(boxes, indices, last - 1);
            if costs_less(
                self.weight_of(boxes, indices, last),
                self.weight_of(boxes, indices, best),
                hull(boxes, indices).spec_surface_area(),
            ) {
                last
            } else {
                best
            }
        }
    }
}

/// Taking one more index into a hull joins that shape's box to it.
pub proof fn lemma_hull_take(boxes: Seq<AABB>, indices: Seq<usize>, j: int)
    requires
        0 <= j < indices.len(),
    ensures
        hull(boxes, indices.take(j + 1)) == hull(boxes, indices.take(j)).spec_join(
            &boxes[indices[j] as int],
        ),
        centroid_hull(boxes, indices.take(j + 1)) == centroid_hull(boxes, indices.take(j)).spec_grow(
            &boxes[indices[j] as int].spec_center(),
        ),
{
    assert(indices.take(j + 1).drop_last() =~= indices.take(j));
}

/// Adding one index to a list joins that shape's box to the hull.
pub proof fn lemma_hull_push(boxes: Seq<AABB>, indices: Seq<usize>, i: usize)
    ensures
        hull(boxes, indices.push(i)) == hull(boxes, indices).spec_join(&boxes[i as int]),
{
    assert(indices.push(i).drop_last() =~= indices);
}

/// The hull of two lists, one after the other, is the join of their hulls.
pub proof fn lemma_hull_concat(boxes: Seq<AABB>, a: Seq<usize>, b: Seq<usize>)
    ensures
        hull(boxes, a + b) == hull(boxes, a).spec_join(&hull(boxes, b)),
    decreases b.len(),
{
    if b.len() == 0 {
        assert(a + b =~= a);
    } else {
        lemma_hull_concat(boxes, a, b.drop_last());
        assert((a + b).drop_last() =~= a + b.drop_last());
        assert((a + b).last() == b.last());
    }
}

/// The hull of a list encloses the box of every shape in the list.
pub proof fn lemma_hull_encloses(boxes: Seq<AABB>, indices: Seq<usize>, j: int)
    requires
        0 <= j < indices.len(),
    ensures
        hull(boxes, indices).spec_encloses(&boxes[indices[j] as int]),
    decreases indices.len(),
{
    if j < indices.len() - 1 {
        lemma_hull_encloses(boxes, indices.drop_last(), j);
    }
}

/// The hull of a list is the least box that encloses the boxes of all shapes
/// in the list: every box that encloses them all encloses the hull.
pub proof fn lemma_hull_is_least(boxes: Seq<AABB>, indices: Seq<usize>, outer: AABB)
    requires
        forall|j: int| 0 <= j < indices.len() ==> outer.spec_encloses(&boxes[indices[j] as int]),
    ensures
        outer.spec_encloses(&hull(boxes, indices)),
    decreases indices.len(),
{
    if indices.len() > 0 {
        let rest = indices.drop_last();
        assert forall|j: int| 0 <= j < rest.len() implies outer.spec_encloses(
            &boxes[rest[j] as int],
        ) by {
            assert(rest[j] == indices[j]);
        }
        lemma_hull_is_least(boxes, rest, outer);
        assert(outer.spec_encloses(&boxes[indices[indices.len() - 1] as int]));
    }
}

/// The hull does not depend on the order of the list: two lists that hold the
/// same shapes have the same hull.
pub proof fn lemma_hull_of_same_shapes(boxes: Seq<AABB>, a: Seq<usize>, b: Seq<usize>)
    requires
        a.to_multiset() == b.to_multiset(),
    ensures
        hull(boxes, a) == hull(boxes, b),
{
    assert forall|j: int| 0 <= j < a.len() implies hull(boxes, b).spec_encloses(
        &boxes[a[j] as int],
    ) by {
        let v = a[j];
        assert(a.contains(v));
        to_multiset_contains(a, v);
        to_multiset_contains(b, v);
        let k = choose|k: int| 0 <= k < b.len() && b[k] == v;
        lemma_hull_encloses(boxes, b, k);
    }
    assert forall|j: int| 0 <= j < b.len() implies hull(boxes, a).spec_encloses(
        &boxes[b[j] as int],
    ) by {
        let v = b[j];
        assert(b.contains(v));
        to_multiset_contains(a, v);
        to_multiset_contains(b, v);
        let k = choose|k: int| 0 <= k < a.len() && a[k] == v;
        lemma_hull_encloses(boxes, a, k);
    }
    lemma_hull_is_least(boxes, a, hull(boxes, b));
    lemma_hull_is_least(boxes, b, hull(boxes, a));
}

/// The centroid hull of a list holds the centre of every shape in the list.
pub proof fn lemma_centroid_hull_contains(boxes: Seq<AABB>, indices: Seq<usize>, j: int)
    requires
        0 <= j < indices.len(),
    ensures
        centroid_hull(boxes, indices).spec_contains(&boxes[indices[j] as int].spec_center()),
    decreases indices.len(),
{
    if j < indices.len() - 1 {
        lemma_centroid_hull_contains(boxes, indices.drop_last(), j);
    }
}

/// Along every axis, some shape's centre lies on the lower face of the centroid
/// hull and some shape's centre on the upper face. Returns the positions of two
/// such shapes in the list.
pub proof fn lemma_centroid_hull_attained(boxes: Seq<AABB>, indices: Seq<usize>, axis: Axis) -> (at:
    (int, int))
    requires
        indices.len() > 0,
    ensures
        0 <= at.0 < indices.len(),
        0 <= at.1 < indices.len(),
        boxes[indices[at.0] as int].spec_center().coord(axis) == centroid_hull(
            boxes,
            indices,
        ).min.coord(axis),
        boxes[indices[at.1] as int].spec_center().coord(axis) == centroid_hull(
            boxes,
            indices,
        ).max.coord(axis),
    decreases indices.len(),
{
    let last = indices.len() - 1;
    let centre = boxes[indices.last() as int].spec_center();
    let c = centre.coord(axis);
    let before = centroid_hull(boxes, indices.drop_last());
    let after = centroid_hull(boxes, indices);
    assert(after == before.spec_grow(&centre));
    assert(after.min.coord(axis) == lower(before.min.coord(axis), c));
    assert(after.max.coord(axis) == upper(before.max.coord(axis), c));
    if indices.len() == 1 {
        assert(before == AABB::spec_empty());
        (0, 0)
    } else {
        let rest = lemma_centroid_hull_attained(boxes, indices.drop_last(), axis);
        assert(indices.drop_last()[rest.0] == indices[rest.0]);
        assert(indices.drop_last()[rest.1] == indices[rest.1]);
        let low = if c < before.min.coord(axis) {
            last
        } else {
            rest.0
        };
        let high = if c > before.max.coord(axis) {
            last
        } else {
            rest.1
        };
        (low, high)
    }
}

/// A quotient lies between two whole numbers when the dividend lies between
/// their multiples of the divisor.
pub proof fn lemma_quotient_between(x: int, d: int, low: int, high: int)
    by (nonlinear_arith)
    requires
        d > 0,
        low * d <= x < high * d,
    ensures
        low <= x / d < high,
{
}

/// Within a row of positive extent every shape that the row covers falls into
/// one of the `NUM_BUCKETS` buckets: a shape at the start into the first, a
/// shape at the far end into the last.
pub proof fn lemma_bucket_in_row(bins: Binning, shape: AABB)
    requires
        bins.extent >= 1,
        bins.covers(&shape),
    ensures
        0 <= bins.spec_bucket_of(&shape) < NUM_BUCKETS,
        bins.offset(&shape) == 0 ==> bins.spec_bucket_of(&shape) == 0,
        bins.offset(&shape) == bins.extent ==> bins.spec_bucket_of(&shape) == NUM_BUCKETS - 1,
{
    let x = 599 * bins.offset(&shape);
    let d = 100 * bins.extent;
    lemma_quotient_between(x, d, 0, 6);
    if bins.offset(&shape) == 0 {
        lemma_quotient_between(x, d, 0, 1);
    }
    if bins.offset(&shape) == bins.extent {
        lemma_quotient_between(x, d, 5, 6);
    }
}

/// Filtering keeps every occurrence of the values that pass the test, and
/// nothing else.
pub proof fn lemma_filter_count(s: Seq<usize>, keep: spec_fn(usize) -> bool, v: usize)
    ensures
        s.filter(keep).to_multiset().count(v) == if keep(v) {
            s.to_multiset().count(v)
        } else {
            0
        },
    decreases s.len(),
{
    broadcast use group_multiset_axioms;

    reveal(Seq::filter);
    if s.len() == 0 {
        assert(s.to_multiset() =~= Multiset::<usize>::empty()) by {
            s.to_multiset_ensures();
            assert(s.to_multiset().len() == 0);
        }
    } else {
        let rest = s.drop_last();
        lemma_filter_count(rest, keep, v);
        assert(s =~= rest.push(s.last()));
        to_multiset_build(rest, s.last());
        to_multiset_build(rest.filter(keep), s.last());
    }
}

/// The buckets `from` to `to - 1` together hold every occurrence of the shapes
/// that fall into one of them, and nothing else.
pub proof fn lemma_gathered_count(
    bins: Binning,
    boxes: Seq<AABB>,
    indices: Seq<usize>,
    from: int,
    to: int,
    v: usize,
)
    ensures
        bins.gathered(boxes, indices, from, to).to_multiset().count(v) == if from
            <= bins.spec_bucket_of(&boxes[v as int]) < to {
            indices.to_multiset().count(v)
        } else {
            0
        },
    decreases to - from,
{
    broadcast use group_multiset_axioms;

    if to <= from {
        let none = bins.gathered(boxes, indices, from, to);
        none.to_multiset_ensures();
        assert(none.to_multiset().len() == 0);
        assert(none.to_multiset() =~= Multiset::<usize>::empty());
    } else {
        lemma_gathered_count(bins, boxes, indices, from, to - 1, v);
        lemma_filter_count(indices, bins.falls_into(boxes, to - 1), v);
        lemma_multiset_commutative(
            bins.gathered(boxes, indices, from, to - 1),
            bins.members(boxes, indices, to - 1),
        );
    }
}

/// Of the shapes that a list names, no run of buckets holds more than the list
/// itself.
pub proof fn lemma_gathered_len(
    bins: Binning,
    boxes: Seq<AABB>,
    indices: Seq<usize>,
    from: int,
    to: int,
)
    requires
        0 <= from <= to <= NUM_BUCKETS,
    ensures
        bins.gathered(boxes, indices, from, to).len() <= indices.len(),
{
    broadcast use group_multiset_axioms;

    let before = bins.gathered(boxes, indices, 0, from);
    let within = bins.gathered(boxes, indices, from, to);
    let after = bins.gathered(boxes, indices, to, NUM_BUCKETS as int);
    let astray = |i: usize| !(0 <= bins.spec_bucket_of(&boxes[i as int]) < NUM_BUCKETS);
    let outside = indices.filter(astray);
    let sum = before.to_multiset().add(within.to_multiset()).add(after.to_multiset()).add(
        outside.to_multiset(),
    );
    assert forall|v: usize| sum.count(v) == indices.to_multiset().count(v) by {
        lemma_gathered_count(bins, boxes, indices, 0, from, v);
        lemma_gathered_count(bins, boxes, indices, from, to, v);
        lemma_gathered_count(bins, boxes, indices, to, NUM_BUCKETS as int, v);
        lemma_filter_count(indices, astray, v);
    }
    assert(sum =~= indices.to_multiset());
    to_multiset_len(before);
    to_multiset_len(within);
    to_multiset_len(after);
    to_multiset_len(outside);
    to_multiset_len(indices);
}

/// A cut through a row of positive extent divides the group: the two sides
/// together hold every shape of the group as often as the group lists it, and
/// each side holds at least one shape, so that each is shorter than the group.
pub proof fn lemma_cut_divides(boxes: Seq<AABB>, indices: Seq<usize>, cut: int)
    requires
        indices.len() > 0,
        Binning::of(boxes, indices).extent >= 1,
        0 <= cut < NUM_BUCKETS - 1,
    ensures
        ({
            let bins = Binning::of(boxes, indices);
            let left = bins.left_of(boxes, indices, cut);
            let right = bins.right_of(boxes, indices, cut);
            &&& left.to_multiset().add(right.to_multiset()) == indices.to_multiset()
            &&& left.len() + right.len() == indices.len()
            &&& 1 <= left.len() < indices.len()
            &&& 1 <= right.len() < indices.len()
            &&& forall|k: int| 0 <= k < left.len() ==> indices.contains(#[trigger] left[k])
            &&& forall|k: int| 0 <= k < right.len() ==> indices.contains(#[trigger] right[k])
        }),
{
    broadcast use group_multiset_axioms;

    let bins = Binning::of(boxes, indices);
    let left = bins.left_of(boxes, indices, cut);
    let right = bins.right_of(boxes, indices, cut);
    let centroids = centroid_hull(boxes, indices);
    let both = left.to_multiset().add(right.to_multiset());
    assert forall|j: int| 0 <= j < indices.len() implies 0 <= bins.spec_bucket_of(
        &boxes[#[trigger] indices[j] as int],
    ) < NUM_BUCKETS by {
        lemma_centroid_hull_contains(boxes, indices, j);
        lemma_bucket_in_row(bins, boxes[indices[j] as int]);
    }
    assert forall|v: usize| both.count(v) == indices.to_multiset().count(v) by {
        lemma_gathered_count(bins, boxes, indices, 0, cut + 1, v);
        lemma_gathered_count(bins, boxes, indices, cut + 1, NUM_BUCKETS as int, v);
        to_multiset_contains(indices, v);
        if indices.contains(v) {
            let j = choose|j: int| 0 <= j < indices.len() && indices[j] == v;
            assert(0 <= bins.spec_bucket_of(&boxes[indices[j] as int]) < NUM_BUCKETS);
        }
    }
    assert(both =~= indices.to_multiset());
    to_multiset_len(left);
    to_multiset_len(right);
    to_multiset_len(indices);

    let at = lemma_centroid_hull_attained(boxes, indices, bins.axis);
    lemma_centroid_hull_contains(boxes, indices, at.0);
    lemma_centroid_hull_contains(boxes, indices, at.1);
    let first = indices[at.0];
    let last = indices[at.1];
    lemma_bucket_in_row(bins, boxes[first as int]);
    lemma_bucket_in_row(bins, boxes[last as int]);
    lemma_gathered_count(bins, boxes, indices, 0, cut + 1, first);
    lemma_gathered_count(bins, boxes, indices, cut + 1, NUM_BUCKETS as int, last);
    to_multiset_contains(indices, first);
    to_multiset_contains(indices, last);
    assert(indices.contains(first));
    assert(indices.contains(last));
    assert(left.to_multiset().count(first) >= 1);
    assert(right.to_multiset().count(last) >= 1);

    assert forall|k: int| 0 <= k < left.len() implies indices.contains(#[trigger] left[k]) by {
        let v = left[k];
        assert(left.contains(v));
        to_multiset_contains(left, v);
        to_multiset_contains(indices, v);
        lemma_gathered_count(bins, boxes, indices, 0, cut + 1, v);
    }
    assert forall|k: int| 0 <= k < right.len() implies indices.contains(#[trigger] right[k]) by {
        let v = right[k];
        assert(right.contains(v));
        to_multiset_contains(right, v);
        to_multiset_contains(indices, v);
        lemma_gathered_count(bins, boxes, indices, cut + 1, NUM_BUCKETS as int, v);
    }
}

/// The cheapest cut among the first `last + 1` is one of them.
pub proof fn lemma_best_cut_in_range(bins: Binning, boxes: Seq<AABB>, indices: Seq<usize>, last: int)
    requires
        0 <= last,
    ensures
        0 <= bins.best_cut(boxes, indices, last) <= last,
    decreases last,
{
    if last > 0 {
        lemma_best_cut_in_range(bins, boxes, indices, last - 1);
    }
}

/// Over a common positive area the lighter cut is the cheaper one; over a zero
/// area no cut is cheaper than another.
pub proof fn lemma_costs_less(weight: nat, other_weight: nat, area: nat)
    by (nonlinear_arith)
    ensures
        costs_less(weight, other_weight, area) == (area > 0 && weight < other_weight),
{
}

impl Binning {
    /// Lays the row of buckets across `centroids`, along its largest axis.
    pub fn new(centroids: &AABB) -> (bins: Binning)
        ensures
            bins == Binning::across(*centroids),
    {
        let axis: Axis = centroids.largest_axis();
        Binning { axis, start: centroids.min.get(axis), extent: centroids.extent(axis) }
    }

    /// Computes the number of the bucket that `shape` falls into.
    pub fn bucket_of(&self, shape: &AABB) -> (bucket: usize)
        requires
            self.extent >= 1,
            self.covers(shape),
        ensures
            bucket == self.spec_bucket_of(shape),
            bucket < NUM_BUCKETS,
    {
        proof {
            lemma_bucket_in_row(*self, *shape);
        }
        let centre: i64 = shape.center().get(self.axis) as i64;
        let offset: u64 = (centre - self.start as i64) as u64;
        let bucket: u64 = (599 * offset) / (100 * (self.extent as u64));
        bucket as usize
    }
}

/// The running tally of one bucket, or of several buckets taken together: how
/// many shapes it holds and the join of their boxes.
#[derive(Clone, Copy)]
pub struct Bucket {
    pub size: usize,
    pub aabb: AABB,
}

impl Bucket {
    /// Whether this is the tally of the shapes listed in `members`.
    pub open spec fn tallies(&self, boxes: Seq<AABB>, members: Seq<usize>) -> bool {
        &&& self.size == members.len()
        &&& self.aabb == hull(boxes, members)
    }

    /// The tally of no shapes.
    pub fn empty() -> (b: Bucket)
        ensures
            b.size == 0,
            b.aabb == AABB::spec_empty(),
    {
        Bucket { size: 0, aabb: AABB::empty() }
    }

    /// Counts one more shape, with the box `aabb`.
    pub fn add_aabb(&mut self, aabb: &AABB)
        requires
            old(self).size < usize::MAX,
        ensures
            final(self).size == old(self).size + 1,
            final(self).aabb == old(self).aabb.spec_join(aabb),
    {
        self.size += 1;
        self.aabb = self.aabb.join(aabb);
    }
}

/// The tally of two tallies taken together.
pub(crate) fn join_bucket(a: Bucket, b: &Bucket) -> (c: Bucket)
    requires
        a.size + b.size <= usize::MAX,
    ensures
        c.size == a.size + b.size,
        c.aabb == a.aabb.spec_join(&b.aabb),
{
    Bucket { size: a.size + b.size, aabb: a.aabb.join(&b.aabb) }
}

/// Extends a pair of hulls, the first of boxes and the second of their
/// centres, by one more box.
pub(crate) fn grow_convex_hull(convex_hull: (AABB, AABB), shape_aabb: &AABB) -> (grown: (AABB, AABB))
    ensures
        grown.0 == convex_hull.0.spec_join(shape_aabb),
        grown.1 == convex_hull.1.spec_grow(&shape_aabb.spec_center()),
{
    let center: Point3 = shape_aabb.center();
    (convex_hull.0.join(shape_aabb), convex_hull.1.grow(&center))
}

/// Computes the hull of the boxes of the listed shapes, and the hull of the
/// boxes' centres.
pub(crate) fn convex_hulls<T: Bounded>(shapes: &[T], indices: &Vec<usize>) -> (hulls: (AABB, AABB))
    requires
        forall|j: int| 0 <= j < indices@.len() ==> indices@[j] < shapes@.len(),
    ensures
        hulls.0 == hull(boxes_of(shapes@), indices@),
        hulls.1 == centroid_hull(boxes_of(shapes@), indices@),
{
    let ghost boxes = boxes_of(shapes@);
    let mut convex_hull: (AABB, AABB) = (AABB::empty(), AABB::empty());
    let mut j: usize = 0;
    while j < indices.len()
        invariant
            j <= indices@.len(),
            boxes == boxes_of(shapes@),
            forall|k: int| 0 <= k < indices@.len() ==> indices@[k] < shapes@.len(),
            convex_hull.0 == hull(boxes, indices@.take(j as int)),
            convex_hull.1 == centroid_hull(boxes, indices@.take(j as int)),
        decreases indices@.len() - j,
    {
        let index: usize = indices[j];
        proof {
            lemma_hull_take(boxes, indices@, j as int);
        }
        convex_hull = grow_convex_hull(convex_hull, &shapes[index].aabb());
        j += 1;
    }
    proof {
        assert(indices@.take(indices@.len() as int) =~= indices@);
    }
    convex_hull
}

/// Sorts the listed shapes into the buckets of `bins`. Returns each bucket's
/// tally and each bucket's members, the members in the order of the list.
pub(crate) fn fill_buckets<T: Bounded>(shapes: &[T], indices: &Vec<usize>, bins: &Binning) -> (filled: (
    [Bucket; 6],
    [Vec<usize>; 6],
))
    requires
        forall|j: int| 0 <= j < indices@.len() ==> indices@[j] < shapes@.len(),
        *bins == Binning::of(boxes_of(shapes@), indices@),
        bins.extent >= 1,
    ensures
        forall|b: int|
            0 <= b < NUM_BUCKETS ==> (#[trigger] filled.0[b]).tallies(
                boxes_of(shapes@),
                bins.members(boxes_of(shapes@), indices@, b),
            ),
        forall|b: int|
            0 <= b < NUM_BUCKETS ==> (#[trigger] filled.1[b])@ == bins.members(
                boxes_of(shapes@),
                indices@,
                b,
            ),
{
    let ghost boxes = boxes_of(shapes@);
    let mut buckets: [Bucket; 6] = [
        Bucket::empty(),
        Bucket::empty(),
        Bucket::empty(),
        Bucket::empty(),
        Bucket::empty(),
        Bucket::empty(),
    ];
    let mut bucket_assignments: [Vec<usize>; 6] = [
        Vec::new(),
        Vec::new(),
        Vec::new(),
        Vec::new(),
        Vec::new(),
        Vec::new(),
    ];
    proof {
        reveal(Seq::filter);
        assert(indices@.take(0).len() == 0);
    }
    let mut j: usize = 0;
    while j < indices.len()
        invariant
            j <= indices@.len(),
            boxes == boxes_of(shapes@),
            forall|k: int| 0 <= k < indices@.len() ==> indices@[k] < shapes@.len(),
            *bins == Binning::of(boxes, indices@),
            bins.extent >= 1,
            forall|b: int|
                0 <= b < NUM_BUCKETS ==> (#[trigger] buckets[b]).tallies(
                    boxes,
                    bins.members(boxes, indices@.take(j as int), b),
                ),
            forall|b: int|
                0 <= b < NUM_BUCKETS ==> (#[trigger] bucket_assignments[b])@ == bins.members(
                    boxes,
                    indices@.take(j as int),
                    b,
                ),
        decreases indices@.len() - j,
    {
        let idx: usize = indices[j];
        let shape_aabb: AABB = shapes[idx].aabb();
        proof {
            lemma_centroid_hull_contains(boxes, indices@, j as int);
        }
        let bucket_num: usize = bins.bucket_of(&shape_aabb);
        proof {
            let seen = indices@.take(j as int);
            indices@.lemma_take_succ_push(j as int);
            assert forall|b: int| 0 <= b < NUM_BUCKETS implies #[trigger] bins.members(
                boxes,
                indices@.take(j + 1),
                b,
            ) == if b == bucket_num {
                bins.members(boxes, seen, b).push(idx)
            } else {
                bins.members(boxes, seen, b)
            } by {
                seen.lemma_filter_push(idx, bins.falls_into(boxes, b));
            }
            seen.lemma_filter_len(bins.falls_into(boxes, bucket_num as int));
            lemma_hull_push(boxes, bins.members(boxes, seen, bucket_num as int), idx);
        }
        let mut bucket: Bucket = buckets[bucket_num];
        bucket.add_aabb(&shape_aabb);
        buckets[bucket_num] = bucket;
        bucket_assignments[bucket_num].push(idx);
        j += 1;
    }
    proof {
        assert(indices@.take(indices@.len() as int) =~= indices@);
    }
    (buckets, bucket_assignments)
}

/// Takes the buckets `from` to `to - 1` together.
pub(crate) fn join_buckets(
    buckets: &[Bucket; 6],
    from: usize,
    to: usize,
    Ghost(bins): Ghost<Binning>,
    Ghost(boxes): Ghost<Seq<AABB>>,
    Ghost(indices): Ghost<Seq<usize>>,
) -> (joined: Bucket)
    requires
        from <= to <= NUM_BUCKETS,
        indices.len() <= usize::MAX,
        forall|b: int|
            0 <= b < NUM_BUCKETS ==> (#[trigger] buckets[b]).tallies(
                boxes,
                bins.members(boxes, indices, b),
            ),
    ensures
        joined.tallies(boxes, bins.gathered(boxes, indices, from as int, to as int)),
{
    let mut joined: Bucket = Bucket::empty();
    let mut b: usize = from;
    while b < to
        invariant
            from <= b <= to <= NUM_BUCKETS,
            indices.len() <= usize::MAX,
            forall|k: int|
                0 <= k < NUM_BUCKETS ==> (#[trigger] buckets[k]).tallies(
                    boxes,
                    bins.members(boxes, indices, k),
                ),
            joined.tallies(boxes, bins.gathered(boxes, indices, from as int, b as int)),
        decreases to - b,
    {
        proof {
            lemma_gathered_len(bins, boxes, indices, from as int, b + 1);
            lemma_hull_concat(
                boxes,
                bins.gathered(boxes, indices, from as int, b as int),
                bins.members(boxes, indices, b as int),
            );
        }
        joined = join_bucket(joined, &buckets[b]);
        b += 1;
    }
    joined
}

/// Finds the cheapest cut through the row of buckets. Returns the number of
/// the bucket behind which it cuts, and the hulls of the two sides.
pub(crate) fn cheapest_cut(
    buckets: &[Bucket; 6],
    aabb_bounds: &AABB,
    Ghost(bins): Ghost<Binning>,
    Ghost(boxes): Ghost<Seq<AABB>>,
    Ghost(indices): Ghost<Seq<usize>>,
) -> (cut: (usize, AABB, AABB))
    requires
        indices.len() <= usize::MAX,
        *aabb_bounds == hull(boxes, indices),
        forall|b: int|
            0 <= b < NUM_BUCKETS ==> (#[trigger] buckets[b]).tallies(
                boxes,
                bins.members(boxes, indices, b),
            ),
    ensures
        cut.0 == bins.best_cut(boxes, indices, NUM_BUCKETS - 2),
        cut.0 < NUM_BUCKETS - 1,
        cut.1 == hull(boxes, bins.left_of(boxes, indices, cut.0 as int)),
        cut.2 == hull(boxes, bins.right_of(boxes, indices, cut.0 as int)),
{
    let area: u128 = aabb_bounds.surface_area();
    let first_l: Bucket = join_buckets(buckets, 0, 1, Ghost(bins), Ghost(boxes), Ghost(indices));
    let first_r: Bucket = join_buckets(
        buckets,
        1,
        NUM_BUCKETS,
        Ghost(bins),
        Ghost(boxes),
        Ghost(indices),
    );
    let mut min_bucket: usize = 0;
    let mut min_cost: SplitCost = SplitCost::of_split(
        first_l.size,
        &first_l.aabb,
        first_r.size,
        &first_r.aabb,
    );
    let mut child_l_aabb: AABB = first_l.aabb;
    let mut child_r_aabb: AABB = first_r.aabb;
    let mut i: usize = 1;
    while i < NUM_BUCKETS - 1
        invariant
            1 <= i <= NUM_BUCKETS - 1,
            indices.len() <= usize::MAX,
            area == hull(boxes, indices).spec_surface_area(),
            forall|b: int|
                0 <= b < NUM_BUCKETS ==> (#[trigger] buckets[b]).tallies(
                    boxes,
                    bins.members(boxes, indices, b),
                ),
            min_bucket == bins.best_cut(boxes, indices, i - 1),
            min_bucket < i,
            min_cost@ == bins.weight_of(boxes, indices, min_bucket as int),
            child_l_aabb == hull(boxes, bins.left_of(boxes, indices, min_bucket as int)),
            child_r_aabb == hull(boxes, bins.right_of(boxes, indices, min_bucket as int)),
        decreases NUM_BUCKETS - i,
    {
        let child_l: Bucket = join_buckets(
            buckets,
            0,
            i + 1,
            Ghost(bins),
            Ghost(boxes),
            Ghost(indices),
        );
        let child_r: Bucket = join_buckets(
            buckets,
            i + 1,
            NUM_BUCKETS,
            Ghost(bins),
            Ghost(boxes),
            Ghost(indices),
        );
        let cost: SplitCost = SplitCost::of_split(
            child_l.size,
            &child_l.aabb,
            child_r.size,
            &child_r.aabb,
        );
        proof {
            lemma_costs_less(cost@, min_cost@, area as nat);
        }
        if area > 0 && cost.less_than(&min_cost) {
            min_bucket = i;
            min_cost = cost;
            child_l_aabb = child_l.aabb;
            child_r_aabb = child_r.aabb;
        }
        i += 1;
    }
    (min_bucket, child_l_aabb, child_r_aabb)
}

/// Strings the members of the buckets together into the two sides of the cut
/// behind bucket `min_bucket`.
pub(crate) fn gather_sides(
    bucket_assignments: [Vec<usize>; 6],
    min_bucket: usize,
    Ghost(bins): Ghost<Binning>,
    Ghost(boxes): Ghost<Seq<AABB>>,
    Ghost(indices): Ghost<Seq<usize>>,
) -> (sides: (Vec<usize>, Vec<usize>))
    requires
        min_bucket < NUM_BUCKETS - 1,
        forall|b: int|
            0 <= b < NUM_BUCKETS ==> (#[trigger] bucket_assignments[b])@ == bins.members(
                boxes,
                indices,
                b,
            ),
    ensures
        sides.0@ == bins.left_of(boxes, indices, min_bucket as int),
        sides.1@ == bins.right_of(boxes, indices, min_bucket as int),
{
    let mut bucket_assignments = bucket_assignments;
    let mut child_l_indices: Vec<usize> = Vec::new();
    let mut b: usize = 0;
    while b < min_bucket + 1
        invariant
            b <= min_bucket + 1 < NUM_BUCKETS,
            child_l_indices@ == bins.gathered(boxes, indices, 0, b as int),
            forall|k: int|
                b <= k < NUM_BUCKETS ==> (#[trigger] bucket_assignments[k])@ == bins.members(
                    boxes,
                    indices,
                    k,
                ),
        decreases min_bucket + 1 - b,
    {
        child_l_indices.append(&mut bucket_assignments[b]);
        b += 1;
    }
    let mut child_r_indices: Vec<usize> = Vec::new();
    while b < NUM_BUCKETS
        invariant
            min_bucket + 1 <= b <= NUM_BUCKETS,
            child_r_indices@ == bins.gathered(boxes, indices, min_bucket + 1, b as int),
            forall|k: int|
                b <= k < NUM_BUCKETS ==> (#[trigger] bucket_assignments[k])@ == bins.members(
                    boxes,
                    indices,
                    k,
                ),
        decreases NUM_BUCKETS - b,
    {
        child_r_indices.append(&mut bucket_assignments[b]);
        b += 1;
    }
    (child_l_indices, child_r_indices)
}

} // verus!
