//! The hierarchy itself: building it by recursive splitting, and walking it
//! with a ray.

use vstd::prelude::*;
use vstd::seq_lib::*;
use vstd::multiset::*;
use crate::aabb::{Bounded, AABB};
use crate::partition::{
    boxes_of, cheapest_cut, convex_hulls, fill_buckets, gather_sides, hull, lemma_best_cut_in_range,
    lemma_cut_divides, lemma_filter_count, lemma_hull_encloses, lemma_hull_of_same_shapes, Binning,
    NUM_BUCKETS,
};
use crate::ray::{lemma_intersects_enclosing, Ray};
use crate::EPSILON;

verus! {

/// The largest group of shapes that is never split.
pub const LEAF_SIZE: usize = 5;

/// The mathematical value of a hierarchy: what a [`BVHNode`] holds, with lists
/// as sequences.
pub enum Tree {
    Leaf { shapes: Seq<usize> },
    Node { child_l_aabb: AABB, child_l: Box<Tree>, child_r_aabb: AABB, child_r: Box<Tree> },
}

/// The indices `0, 1, ..., count - 1`.
pub open spec fn all_indices(count: nat) -> Seq<usize> {
    Seq::new(count, |i: int| i as usize)
}

/// The test that picks out the shapes whose own box `ray` meets.
pub open spec fn is_hit(ray: Ray, boxes: Seq<AABB>) -> spec_fn(usize) -> bool {
    |i: usize| ray.spec_intersects_aabb(&boxes[i as int])
}

/// Those of `candidates` whose own box `ray` meets, in the same order.
pub open spec fn confirmed(candidates: Seq<usize>, ray: Ray, boxes: Seq<AABB>) -> Seq<usize> {
    candidates.filter(is_hit(ray, boxes))
}

impl Tree {
    /// The shape indices of all leaves, from the leftmost leaf to the rightmost.
    pub open spec fn leaf_indices(self) -> Seq<usize>
        decreases self,
    {
        match self {
            Tree::Leaf { shapes } => shapes,
            Tree::Node { child_l, child_r, .. } => (*child_l).leaf_indices()
                + (*child_r).leaf_indices(),
        }
    }

    /// The shape indices that a walk with `ray` collects: those of every leaf
    /// that is reached through boxes which `ray` meets, left subtree first.
    pub open spec fn candidates(self, ray: Ray) -> Seq<usize>
        decreases self,
    {
        match self {
            Tree::Leaf { shapes } => shapes,
            Tree::Node { child_l_aabb, child_l, child_r_aabb, child_r } => {
                let from_l = if ray.spec_intersects_aabb(&child_l_aabb) {
                    (*child_l).candidates(ray)
                } else {
                    Seq::empty()
                };
                let from_r = if ray.spec_intersects_aabb(&child_r_aabb) {
                    (*child_r).candidates(ray)
                } else {
                    Seq::empty()
                };
                from_l + from_r
            },
        }
    }

    /// Whether every index in the tree is below `count`.
    pub open spec fn names_only(self, count: nat) -> bool {
        forall|k: int| 0 <= k < self.leaf_indices().len() ==> self.leaf_indices()[k] < count
    }

    /// Whether, at every inner node, the box kept for a child encloses the box
    /// of every shape below that child.
    pub open spec fn encloses_shapes(self, boxes: Seq<AABB>) -> bool
        decreases self,
    {
        match self {
            Tree::Leaf { .. } => true,
            Tree::Node { child_l_aabb, child_l, child_r_aabb, child_r } => {
                &&& forall|k: int|
                    0 <= k < (*child_l).leaf_indices().len() ==> child_l_aabb.spec_encloses(
                        &boxes[#[trigger] (*child_l).leaf_indices()[k] as int],
                    )
                &&& forall|k: int|
                    0 <= k < (*child_r).leaf_indices().len() ==> child_r_aabb.spec_encloses(
                        &boxes[#[trigger] (*child_r).leaf_indices()[k] as int],
                    )
                &&& (*child_l).encloses_shapes(boxes)
                &&& (*child_r).encloses_shapes(boxes)
            },
        }
    }

    /// Whether, at every inner node, the box kept for a child is the hull of
    /// the shapes below that child, and nothing larger.
    pub open spec fn boxes_are_tight(self, boxes: Seq<AABB>) -> bool
        decreases self,
    {
        match self {
            Tree::Leaf { .. } => true,
            Tree::Node { child_l_aabb, child_l, child_r_aabb, child_r } => {
                &&& child_l_aabb == hull(boxes, (*child_l).leaf_indices())
                &&& child_r_aabb == hull(boxes, (*child_r).leaf_indices())
                &&& (*child_l).boxes_are_tight(boxes)
                &&& (*child_r).boxes_are_tight(boxes)
            },
        }
    }

    /// Whether every leaf is one that could not be split further: it holds at
    /// most `LEAF_SIZE` shapes, or the centres of its shapes spread less than
    /// `EPSILON` along every axis.
    pub open spec fn leaves_are_final(self, boxes: Seq<AABB>) -> bool
        decreases self,
    {
        match self {
            Tree::Leaf { shapes } => shapes.len() <= LEAF_SIZE || Binning::of(boxes, shapes).extent
                < EPSILON,
            Tree::Node { child_l, child_r, .. } => (*child_l).leaves_are_final(boxes) && (
            *child_r).leaves_are_final(boxes),
        }
    }

    /// Whether the tree organizes exactly the shapes with the boxes `boxes`:
    /// each of them is named once, no other index is named, and the boxes kept
    /// at inner nodes enclose the shapes below them.
    pub open spec fn organizes(self, boxes: Seq<AABB>) -> bool {
        &&& self.leaf_indices().to_multiset() == all_indices(boxes.len()).to_multiset()
        &&& self.encloses_shapes(boxes)
    }
}

/// The tree that building yields for the shapes listed in `indices`.
///
/// A group of at most `LEAF_SIZE` shapes becomes a leaf, and so does a group
/// whose centres spread less than `EPSILON`. Any other group is sorted into
/// `NUM_BUCKETS` buckets along the axis of greatest spread and cut in two at the
/// cheapest place; each side becomes a subtree, kept with the hull of its shapes.
pub open spec fn build_tree(boxes: Seq<AABB>, indices: Seq<usize>) -> Tree
    decreases indices.len(),
    via build_tree_shrinks
{
    let bins = Binning::of(boxes, indices);
    if indices.len() <= LEAF_SIZE || bins.extent < EPSILON {
        Tree::Leaf { shapes: indices }
    } else {
        let cut = bins.best_cut(boxes, indices, NUM_BUCKETS - 2);
        let left = bins.left_of(boxes, indices, cut);
        let right = bins.right_of(boxes, indices, cut);
        Tree::Node {
            child_l_aabb: hull(boxes, left),
            child_l: Box::new(build_tree(boxes, left)),
            child_r_aabb: hull(boxes, right),
            child_r: Box::new(build_tree(boxes, right)),
        }
    }
}

#[via_fn]
proof fn build_tree_shrinks(boxes: Seq<AABB>, indices: Seq<usize>) {
    let bins = Binning::of(boxes, indices);
    if !(indices.len() <= LEAF_SIZE || bins.extent < EPSILON) {
        lemma_best_cut_in_range(bins, boxes, indices, NUM_BUCKETS - 2);
        lemma_cut_divides(boxes, indices, bins.best_cut(boxes, indices, NUM_BUCKETS - 2));
    }
}

/// A node of the hierarchy. No node keeps a box for itself: an inner node
/// keeps one for each of its two children.
pub enum BVHNode {
    /// Leaf node.
    Leaf {
        /// The shapes contained in this leaf.
        shapes: Vec<usize>,
    },
    /// Inner node.
    Node {
        /// The hull of the boxes of the shapes below `child_l`.
        child_l_aabb: AABB,
        /// Left subtree.
        child_l: Box<BVHNode>,
        /// The hull of the boxes of the shapes below `child_r`.
        child_r_aabb: AABB,
        /// Right subtree.
        child_r: Box<BVHNode>,
    },
}

impl View for BVHNode {
    type V = Tree;

    open spec fn view(&self) -> Tree
        decreases self,
    {
        match self {
            BVHNode::Leaf { shapes } => Tree::Leaf { shapes: shapes@ },
            BVHNode::Node { child_l_aabb, child_l, child_r_aabb, child_r } => Tree::Node {
                child_l_aabb: *child_l_aabb,
                child_l: Box::new((**child_l).view()),
                child_r_aabb: *child_r_aabb,
                child_r: Box::new((**child_r).view()),
            },
        }
    }
}

impl BVHNode {
    /// Builds the subtree for the shapes listed in `indices`, by recursive
    /// splitting at the cheapest cut.
    pub fn build<T: Bounded>(shapes: &[T], indices: Vec<usize>) -> (node: BVHNode)
        requires
            forall|j: int| 0 <= j < indices@.len() ==> indices@[j] < shapes@.len(),
        ensures
            node@ == build_tree(boxes_of(shapes@), indices@),
            indices@.len() <= LEAF_SIZE ==> node@ == (Tree::Leaf { shapes: indices@ }),
            node@.leaf_indices().to_multiset() == indices@.to_multiset(),
            node@.names_only(shapes@.len() as nat),
            node@.boxes_are_tight(boxes_of(shapes@)),
            node@.encloses_shapes(boxes_of(shapes@)),
            node@.leaves_are_final(boxes_of(shapes@)),
        decreases indices@.len(),
    {
        let ghost boxes = boxes_of(shapes@);
        proof {
            lemma_build_keeps_every_shape(boxes, indices@);
            lemma_build_boxes_are_tight(boxes, indices@);
            lemma_build_encloses_shapes(boxes, indices@);
            lemma_build_leaves_are_final(boxes, indices@);
            lemma_same_indices_same_bound(
                build_tree(boxes, indices@).leaf_indices(),
                indices@,
                shapes@.len() as nat,
            );
        }
        let (aabb_bounds, centroid_bounds) = convex_hulls(shapes, &indices);

        // A small group is not worth splitting.
        if indices.len() <= LEAF_SIZE {
            return BVHNode::Leaf { shapes: indices };
        }
        // Lay the buckets along the axis on which the centres spread the most.
        // Where they do not spread at all, no cut could separate them.
        let bins: Binning = Binning::new(&centroid_bounds);
        if bins.extent < EPSILON {
            return BVHNode::Leaf { shapes: indices };
        }
        let (buckets, bucket_assignments) = fill_buckets(shapes, &indices, &bins);
        let (min_bucket, child_l_aabb, child_r_aabb) = cheapest_cut(
            &buckets,
            &aabb_bounds,
            Ghost(bins),
            Ghost(boxes),
            Ghost(indices@),
        );
        let (child_l_indices, child_r_indices) = gather_sides(
            bucket_assignments,
            min_bucket,
            Ghost(bins),
            Ghost(boxes),
            Ghost(indices@),
        );
        proof {
            lemma_cut_divides(boxes, indices@, min_bucket as int);
            assert forall|j: int| 0 <= j < child_l_indices@.len() implies child_l_indices@[j]
                < shapes@.len() by {
                assert(indices@.contains(child_l_indices@[j]));
            }
            assert forall|j: int| 0 <= j < child_r_indices@.len() implies child_r_indices@[j]
                < shapes@.len() by {
                assert(indices@.contains(child_r_indices@[j]));
            }
        }

        // Both sides are shorter than the group, so the recursion ends.
        BVHNode::Node {
            child_l_aabb: child_l_aabb,
            child_l: Box::new(BVHNode::build(shapes, child_l_indices)),
            child_r_aabb: child_r_aabb,
            child_r: Box::new(BVHNode::build(shapes, child_r_indices)),
        }
    }

    /// Walks the subtree with `ray` and appends to `indices` the shapes of
    /// every leaf it reaches. It enters a child only where `ray` meets the box
    /// kept for that child.
    pub fn traverse_recursive(&self, ray: &Ray, indices: &mut Vec<usize>)
        ensures
            final(indices)@ == old(indices)@ + self@.candidates(*ray),
        decreases self,
    {
        match self {
            BVHNode::Node { child_l_aabb, child_l, child_r_aabb, child_r } => {
                if ray.intersects_aabb(child_l_aabb) {
                    child_l.traverse_recursive(ray, indices);
                }
                if ray.intersects_aabb(child_r_aabb) {
                    child_r.traverse_recursive(ray, indices);
                }
            },
            BVHNode::Leaf { shapes } => {
                let mut k: usize = 0;
                while k < shapes.len()
                    invariant
                        k <= shapes@.len(),
                        indices@ == old(indices)@ + shapes@.take(k as int),
                    decreases shapes@.len() - k,
                {
                    indices.push(shapes[k]);
                    k += 1;
                }
            },
        }
    }
}

/// Two lists that hold the same indices equally often stay below the same bound.
pub proof fn lemma_same_indices_same_bound(a: Seq<usize>, b: Seq<usize>, bound: nat)
    requires
        a.to_multiset() == b.to_multiset(),
        forall|j: int| 0 <= j < b.len() ==> b[j] < bound,
    ensures
        forall|k: int| 0 <= k < a.len() ==> a[k] < bound,
{
    assert forall|k: int| 0 <= k < a.len() implies a[k] < bound by {
        let v = a[k];
        assert(a.contains(v));
        to_multiset_contains(a, v);
        to_multiset_contains(b, v);
        let j = choose|j: int| 0 <= j < b.len() && b[j] == v;
        assert(b[j] < bound);
    }
}

/// Every shape handed to a build ends up in a leaf, as often as it was listed,
/// and the leaves hold nothing else.
pub proof fn lemma_build_keeps_every_shape(boxes: Seq<AABB>, indices: Seq<usize>)
    ensures
        build_tree(boxes, indices).leaf_indices().to_multiset() == indices.to_multiset(),
    decreases indices.len(),
{
    let bins = Binning::of(boxes, indices);
    if !(indices.len() <= LEAF_SIZE || bins.extent < EPSILON) {
        let cut = bins.best_cut(boxes, indices, NUM_BUCKETS - 2);
        let left = bins.left_of(boxes, indices, cut);
        let right = bins.right_of(boxes, indices, cut);
        lemma_best_cut_in_range(bins, boxes, indices, NUM_BUCKETS - 2);
        lemma_cut_divides(boxes, indices, cut);
        lemma_build_keeps_every_shape(boxes, left);
        lemma_build_keeps_every_shape(boxes, right);
        lemma_multiset_commutative(
            build_tree(boxes, left).leaf_indices(),
            build_tree(boxes, right).leaf_indices(),
        );
    }
}

/// In a built tree, the box kept for a child is the hull of the shapes that
/// ended up below that child.
pub proof fn lemma_build_boxes_are_tight(boxes: Seq<AABB>, indices: Seq<usize>)
    ensures
        build_tree(boxes, indices).boxes_are_tight(boxes),
    decreases indices.len(),
{
    let bins = Binning::of(boxes, indices);
    if !(indices.len() <= LEAF_SIZE || bins.extent < EPSILON) {
        let cut = bins.best_cut(boxes, indices, NUM_BUCKETS - 2);
        let left = bins.left_of(boxes, indices, cut);
        let right = bins.right_of(boxes, indices, cut);
        lemma_best_cut_in_range(bins, boxes, indices, NUM_BUCKETS - 2);
        lemma_cut_divides(boxes, indices, cut);
        lemma_build_boxes_are_tight(boxes, left);
        lemma_build_boxes_are_tight(boxes, right);
        lemma_build_keeps_every_shape(boxes, left);
        lemma_build_keeps_every_shape(boxes, right);
        lemma_hull_of_same_shapes(boxes, build_tree(boxes, left).leaf_indices(), left);
        lemma_hull_of_same_shapes(boxes, build_tree(boxes, right).leaf_indices(), right);
    }
}

/// Tight boxes enclose: where the box kept for each child is the hull of the
/// shapes below it, it encloses the box of every one of them.
pub proof fn lemma_tight_boxes_enclose(tree: Tree, boxes: Seq<AABB>)
    requires
        tree.boxes_are_tight(boxes),
    ensures
        tree.encloses_shapes(boxes),
    decreases tree,
{
    match tree {
        Tree::Leaf { .. } => {},
        Tree::Node { child_l_aabb, child_l, child_r_aabb, child_r } => {
            lemma_tight_boxes_enclose(*child_l, boxes);
            lemma_tight_boxes_enclose(*child_r, boxes);
            let ll = (*child_l).leaf_indices();
            let lr = (*child_r).leaf_indices();
            assert forall|k: int| 0 <= k < ll.len() implies child_l_aabb.spec_encloses(
                &boxes[#[trigger] ll[k] as int],
            ) by {
                lemma_hull_encloses(boxes, ll, k);
            }
            assert forall|k: int| 0 <= k < lr.len() implies child_r_aabb.spec_encloses(
                &boxes[#[trigger] lr[k] as int],
            ) by {
                lemma_hull_encloses(boxes, lr, k);
            }
        },
    }
}

/// In a built tree, the box kept for a child encloses the box of every shape
/// below that child.
pub proof fn lemma_build_encloses_shapes(boxes: Seq<AABB>, indices: Seq<usize>)
    ensures
        build_tree(boxes, indices).encloses_shapes(boxes),
{
    lemma_build_boxes_are_tight(boxes, indices);
    lemma_tight_boxes_enclose(build_tree(boxes, indices), boxes);
}

/// Every leaf of a built tree holds at most `LEAF_SIZE` shapes, or shapes
/// whose centres spread less than `EPSILON` along every axis.
pub proof fn lemma_build_leaves_are_final(boxes: Seq<AABB>, indices: Seq<usize>)
    ensures
        build_tree(boxes, indices).leaves_are_final(boxes),
    decreases indices.len(),
{
    let bins = Binning::of(boxes, indices);
    if !(indices.len() <= LEAF_SIZE || bins.extent < EPSILON) {
        let cut = bins.best_cut(boxes, indices, NUM_BUCKETS - 2);
        lemma_best_cut_in_range(bins, boxes, indices, NUM_BUCKETS - 2);
        lemma_cut_divides(boxes, indices, cut);
        lemma_build_leaves_are_final(boxes, bins.left_of(boxes, indices, cut));
        lemma_build_leaves_are_final(boxes, bins.right_of(boxes, indices, cut));
    }
}

/// A group of at most `LEAF_SIZE` shapes is built into a single leaf that
/// lists them as given, wherever they lie.
pub proof fn lemma_small_group_is_one_leaf(boxes: Seq<AABB>, indices: Seq<usize>)
    requires
        indices.len() <= LEAF_SIZE,
    ensures
        build_tree(boxes, indices) == (Tree::Leaf { shapes: indices }),
{
}

/// The built tree depends on nothing but the shapes' boxes and the order in
/// which the shapes are listed: two collections of shapes with the same boxes
/// are built into the same tree.
pub proof fn lemma_build_is_deterministic<T: Bounded, U: Bounded>(
    shapes: Seq<T>,
    others: Seq<U>,
    indices: Seq<usize>,
)
    requires
        shapes.len() == others.len(),
        forall|i: int| 0 <= i < shapes.len() ==> shapes[i].spec_aabb() == others[i].spec_aabb(),
    ensures
        build_tree(boxes_of(shapes), indices) == build_tree(boxes_of(others), indices),
{
    assert(boxes_of(shapes) =~= boxes_of(others));
}

/// A walk collects nothing that the leaves do not hold.
pub proof fn lemma_candidates_are_leaf_indices(tree: Tree, ray: Ray)
    ensures
        forall|k: int|
            0 <= k < tree.candidates(ray).len() ==> tree.leaf_indices().contains(
                #[trigger] tree.candidates(ray)[k],
            ),
    decreases tree,
{
    match tree {
        Tree::Leaf { shapes } => {},
        Tree::Node { child_l_aabb, child_l, child_r_aabb, child_r } => {
            lemma_candidates_are_leaf_indices(*child_l, ray);
            lemma_candidates_are_leaf_indices(*child_r, ray);
            let ll = (*child_l).leaf_indices();
            let lr = (*child_r).leaf_indices();
            let from_l = if ray.spec_intersects_aabb(&child_l_aabb) {
                (*child_l).candidates(ray)
            } else {
                Seq::empty()
            };
            let from_r = if ray.spec_intersects_aabb(&child_r_aabb) {
                (*child_r).candidates(ray)
            } else {
                Seq::empty()
            };
            assert forall|k: int| 0 <= k < tree.candidates(ray).len() implies tree.leaf_indices().contains(
                #[trigger] tree.candidates(ray)[k],
            ) by {
                let v = tree.candidates(ray)[k];
                if k < from_l.len() {
                    assert(v == (*child_l).candidates(ray)[k]);
                    let j = choose|j: int| 0 <= j < ll.len() && ll[j] == v;
                    assert((ll + lr)[j] == v);
                } else {
                    assert(v == (*child_r).candidates(ray)[k - from_l.len()]);
                    let j = choose|j: int| 0 <= j < lr.len() && lr[j] == v;
                    assert((ll + lr)[ll.len() + j] == v);
                }
            }
        },
    }
}

/// Where the boxes kept in a tree enclose the shapes below them, a walk
/// collects every shape whose own box the ray meets as often as the leaves
/// hold it.
pub proof fn lemma_walk_misses_no_hit(tree: Tree, boxes: Seq<AABB>, ray: Ray, v: usize)
    requires
        tree.encloses_shapes(boxes),
        ray.spec_intersects_aabb(&boxes[v as int]),
    ensures
        tree.candidates(ray).to_multiset().count(v) == tree.leaf_indices().to_multiset().count(v),
    decreases tree,
{
    broadcast use group_multiset_axioms;

    match tree {
        Tree::Leaf { shapes } => {},
        Tree::Node { child_l_aabb, child_l, child_r_aabb, child_r } => {
            let none = Seq::<usize>::empty();
            none.to_multiset_ensures();
            assert(none.to_multiset().len() == 0);
            let ll = (*child_l).leaf_indices();
            let lr = (*child_r).leaf_indices();
            let from_l = if ray.spec_intersects_aabb(&child_l_aabb) {
                (*child_l).candidates(ray)
            } else {
                none
            };
            let from_r = if ray.spec_intersects_aabb(&child_r_aabb) {
                (*child_r).candidates(ray)
            } else {
                none
            };
            lemma_multiset_commutative(from_l, from_r);
            lemma_multiset_commutative(ll, lr);
            if ray.spec_intersects_aabb(&child_l_aabb) {
                lemma_walk_misses_no_hit(*child_l, boxes, ray, v);
            } else {
                to_multiset_contains(ll, v);
                if ll.contains(v) {
                    let j = choose|j: int| 0 <= j < ll.len() && ll[j] == v;
                    lemma_intersects_enclosing(ray, boxes[v as int], child_l_aabb);
                }
            }
            if ray.spec_intersects_aabb(&child_r_aabb) {
                lemma_walk_misses_no_hit(*child_r, boxes, ray, v);
            } else {
                to_multiset_contains(lr, v);
                if lr.contains(v) {
                    let j = choose|j: int| 0 <= j < lr.len() && lr[j] == v;
                    lemma_intersects_enclosing(ray, boxes[v as int], child_r_aabb);
                }
            }
        },
    }
}

/// Each index below `count` occurs once among `all_indices(count)`, and no
/// other index occurs.
pub proof fn lemma_all_indices_count(count: nat, v: usize)
    requires
        count <= usize::MAX,
    ensures
        all_indices(count).to_multiset().count(v) == if v < count {
            1nat
        } else {
            0nat
        },
{
    let all = all_indices(count);
    assert(all.no_duplicates());
    all.lemma_multiset_has_no_duplicates();
    to_multiset_contains(all, v);
    if v < count {
        assert(all[v as int] == v);
        assert(all.contains(v));
    }
}

/// Whatever the shape of the tree, the shapes that remain after the final
/// test are exactly those whose own box the ray meets: a tree that organizes
/// the shapes yields each of them once and nothing else, which is what testing
/// every shape in turn yields.
pub proof fn lemma_traversal_is_exact(tree: Tree, boxes: Seq<AABB>, ray: Ray)
    requires
        tree.organizes(boxes),
        boxes.len() <= usize::MAX,
    ensures
        ({
            let found = confirmed(tree.candidates(ray), ray, boxes);
            &&& found.to_multiset() == confirmed(
                all_indices(boxes.len()),
                ray,
                boxes,
            ).to_multiset()
            &&& found.no_duplicates()
            &&& forall|i: usize|
                found.contains(i) <==> i < boxes.len() && ray.spec_intersects_aabb(&boxes[i as int])
        }),
{
    broadcast use group_multiset_axioms;

    let found = confirmed(tree.candidates(ray), ray, boxes);
    let scanned = confirmed(all_indices(boxes.len()), ray, boxes);
    assert forall|v: usize|
        found.to_multiset().count(v) == scanned.to_multiset().count(v)
        && found.to_multiset().count(v) == (if v < boxes.len() && ray.spec_intersects_aabb(&boxes[v as int]) {
            1nat
        } else {
            0nat
        }) by {
        lemma_filter_count(tree.candidates(ray), is_hit(ray, boxes), v);
        lemma_filter_count(all_indices(boxes.len()), is_hit(ray, boxes), v);
        lemma_all_indices_count(boxes.len(), v);
        if ray.spec_intersects_aabb(&boxes[v as int]) {
            lemma_walk_misses_no_hit(tree, boxes, ray, v);
        }
    }
    assert(found.to_multiset() =~= scanned.to_multiset());
    assert forall|i: usize| found.contains(i) <==> i < boxes.len() && ray.spec_intersects_aabb(
        &boxes[i as int],
    ) by {
        to_multiset_contains(found, i);
    }
    assert forall|x: usize| found.to_multiset().contains(x) implies found.to_multiset().count(x)
        == 1 by {}
    found.lemma_multiset_has_no_duplicates_conv();
}

/// A hierarchy built for no shapes is a single empty leaf, and no ray finds
/// anything in it.
pub proof fn lemma_empty_hierarchy_finds_nothing(ray: Ray)
    ensures
        build_tree(Seq::empty(), all_indices(0)) == (Tree::Leaf { shapes: Seq::empty() }),
        confirmed(build_tree(Seq::empty(), all_indices(0)).candidates(ray), ray, Seq::empty())
            == Seq::<usize>::empty(),
{
    reveal(Seq::filter);
    assert(all_indices(0) =~= Seq::<usize>::empty());
}

/// The hierarchy: the root of the tree and nothing else.
pub struct BVH {
    /// The root node of the hierarchy.
    pub root: BVHNode,
}

impl BVH {
    /// The indices of the shapes that a traversal with `ray` returns, in the
    /// order in which it returns them: what the walk collects, less the shapes
    /// whose own box `ray` misses.
    pub open spec fn hit_indices(&self, ray: Ray, boxes: Seq<AABB>) -> Seq<usize> {
        confirmed(self.root@.candidates(ray), ray, boxes)
    }

    /// Builds the hierarchy for all of `shapes`.
    pub fn build<T: Bounded>(shapes: &[T]) -> (bvh: BVH)
        ensures
            bvh.root@ == build_tree(boxes_of(shapes@), all_indices(shapes@.len())),
            shapes@.len() <= LEAF_SIZE ==> bvh.root@ == (Tree::Leaf {
                shapes: all_indices(shapes@.len()),
            }),
            bvh.root@.organizes(boxes_of(shapes@)),
            bvh.root@.boxes_are_tight(boxes_of(shapes@)),
            bvh.root@.names_only(shapes@.len()),
            bvh.root@.leaves_are_final(boxes_of(shapes@)),
    {
        let mut indices: Vec<usize> = Vec::new();
        let mut i: usize = 0;
        while i < shapes.len()
            invariant
                i <= shapes@.len(),
                indices@ == all_indices(i as nat),
            decreases shapes@.len() - i,
        {
            indices.push(i);
            assert(indices@ =~= all_indices((i + 1) as nat));
            i += 1;
        }
        let root: BVHNode = BVHNode::build(shapes, indices);
        BVH { root: root }
    }

    /// Returns the shapes whose own box `ray` meets, each as a reference into
    /// `shapes`. The tree only narrows the search: every shape that the walk
    /// collects is tested against `ray` once more.
    pub fn traverse<'a, T: Bounded>(&'a self, ray: &Ray, shapes: &'a [T]) -> (hit_shapes: Vec<&'a T>)
        requires
            self.root@.names_only(shapes@.len()),
        ensures
            hit_shapes@.len() == self.hit_indices(*ray, boxes_of(shapes@)).len(),
            forall|k: int|
                0 <= k < hit_shapes@.len() ==> *hit_shapes@[k] == shapes@[self.hit_indices(
                    *ray,
                    boxes_of(shapes@),
                )[k] as int],
            self.root@.organizes(boxes_of(shapes@)) ==> {
                let found = self.hit_indices(*ray, boxes_of(shapes@));
                &&& found.to_multiset() == confirmed(
                    all_indices(shapes@.len()),
                    *ray,
                    boxes_of(shapes@),
                ).to_multiset()
                &&& found.no_duplicates()
                &&& forall|i: usize|
                    found.contains(i) <==> i < shapes@.len() && ray.spec_intersects_aabb(
                        &shapes@[i as int].spec_aabb(),
                    )
            },
    {
        let ghost boxes = boxes_of(shapes@);
        let mut indices: Vec<usize> = Vec::new();
        self.root.traverse_recursive(ray, &mut indices);
        proof {
            vstd::slice::axiom_spec_len(shapes);
            lemma_candidates_are_leaf_indices(self.root@, *ray);
            assert(indices@ =~= self.root@.candidates(*ray));
            if self.root@.organizes(boxes) {
                lemma_traversal_is_exact(self.root@, boxes, *ray);
            }
            reveal(Seq::filter);
            assert(indices@.take(0).len() == 0);
        }
        let mut hit_shapes: Vec<&'a T> = Vec::new();
        let mut k: usize = 0;
        while k < indices.len()
            invariant
                k <= indices@.len(),
                boxes == boxes_of(shapes@),
                forall|j: int| 0 <= j < indices@.len() ==> indices@[j] < shapes@.len(),
                hit_shapes@.len() == confirmed(indices@.take(k as int), *ray, boxes).len(),
                forall|m: int|
                    0 <= m < hit_shapes@.len() ==> *hit_shapes@[m] == shapes@[confirmed(
                        indices@.take(k as int),
                        *ray,
                        boxes,
                    )[m] as int],
            decreases indices@.len() - k,
        {
            let index: usize = indices[k];
            let shape: &'a T = &shapes[index];
            proof {
                indices@.lemma_take_succ_push(k as int);
                indices@.take(k as int).lemma_filter_push(index, is_hit(*ray, boxes));
            }
            if ray.intersects_aabb(&shape.aabb()) {
                hit_shapes.push(shape);
            }
            k += 1;
        }
        proof {
            assert(indices@.take(indices@.len() as int) =~= indices@);
        }
        hit_shapes
    }
}

} // verus!
