//! What every hierarchy over bounded shapes offers, however it is laid out.

use vstd::prelude::*;
use crate::aabb::{Bounded, AABB};
use crate::bvh::{all_indices, confirmed, lemma_same_indices_same_bound, BVH};
use crate::partition::boxes_of;
use crate::ray::Ray;

verus! {

/// A structure that is built once for a collection of shapes and then answers,
/// for any ray, which of the shapes the ray can hit.
pub trait BoundingHierarchy: Sized {
    /// Whether the hierarchy organizes exactly the shapes with the boxes
    /// `boxes`, as one that was built for them does.
    open spec fn serves(&self, boxes: Seq<AABB>) -> bool {
        arbitrary()
    }

    /// The indices of the shapes that a traversal with `ray` returns, in the
    /// order in which it returns them.
    open spec fn found_by(&self, ray: Ray, boxes: Seq<AABB>) -> Seq<usize> {
        arbitrary()
    }

    /// Builds the hierarchy for all of `shapes`.
    fn build<T: Bounded>(shapes: &[T]) -> (hierarchy: Self)
        ensures
            hierarchy.serves(boxes_of(shapes@)),
    ;

    /// Returns the shapes whose bounding box `ray` meets, each of them once,
    /// as references into `shapes`: the same shapes that testing every shape
    /// in turn would find, whatever the layout of the hierarchy.
    fn traverse<'a, T: Bounded>(&'a self, ray: &Ray, shapes: &'a [T]) -> (hit_shapes: Vec<&'a T>)
        requires
            self.serves(boxes_of(shapes@)),
        ensures
            hit_shapes@.len() == self.found_by(*ray, boxes_of(shapes@)).len(),
            forall|k: int|
                0 <= k < hit_shapes@.len() ==> *hit_shapes@[k] == shapes@[self.found_by(
                    *ray,
                    boxes_of(shapes@),
                )[k] as int],
            self.found_by(*ray, boxes_of(shapes@)).to_multiset() == confirmed(
                all_indices(shapes@.len()),
                *ray,
                boxes_of(shapes@),
            ).to_multiset(),
    ;
}

impl BoundingHierarchy for BVH {
    open spec fn serves(&self, boxes: Seq<AABB>) -> bool {
        self.root@.organizes(boxes)
    }

    open spec fn found_by(&self, ray: Ray, boxes: Seq<AABB>) -> Seq<usize> {
        self.hit_indices(ray, boxes)
    }

    fn build<T: Bounded>(shapes: &[T]) -> (hierarchy: BVH) {
        BVH::build(shapes)
    }

    fn traverse<'a, T: Bounded>(&'a self, ray: &Ray, shapes: &'a [T]) -> (hit_shapes: Vec<&'a T>) {
        proof {
            lemma_same_indices_same_bound(
                self.root@.leaf_indices(),
                all_indices(shapes@.len()),
                shapes@.len(),
            );
        }
        self.traverse(ray, shapes)
    }
}

} // verus!
