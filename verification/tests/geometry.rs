use bvh::aabb::{Axis, Bounded, Point3, AABB};
use bvh::cost::SplitCost;
use bvh::partition::Binning;
use bvh::ray::{Ray, Vector3};
use bvh::EPSILON;

fn boxed(min: (i32, i32, i32), max: (i32, i32, i32)) -> AABB {
    AABB::with_bounds(Point3::new(min.0, min.1, min.2), Point3::new(max.0, max.1, max.2))
}

#[test]
fn point_coordinates_by_axis() {
    let p = Point3::new(-4, 5, 6);
    assert_eq!(p, Point3 { x: -4, y: 5, z: 6 });
    assert_eq!(p.get(Axis::X), -4);
    assert_eq!(p.get(Axis::Y), 5);
    assert_eq!(p.get(Axis::Z), 6);
}

#[test]
fn empty_box_is_the_identity_of_join() {
    let b = boxed((-3, 4, 5), (9, 10, 11));
    assert_eq!(AABB::empty().join(&b), b);
    assert_eq!(b.join(&AABB::empty()), b);
    assert_eq!(AABB::empty().join(&AABB::empty()), AABB::empty());
    let inverted = boxed((5, 5, 5), (1, 1, 1));
    assert_eq!(AABB::empty().join(&inverted), inverted);
    assert!(!AABB::empty().contains(&Point3::new(0, 0, 0)));
}

#[test]
fn join_takes_the_extremes_of_both() {
    let a = boxed((0, 0, 0), (2, 2, 2));
    let b = boxed((-1, 1, 5), (1, 7, 6));
    let joined = a.join(&b);
    assert_eq!(joined, boxed((-1, 0, 0), (2, 7, 6)));
    assert_eq!(b.join(&a), joined);
    assert!(joined.encloses(&a));
    assert!(joined.encloses(&b));
    assert!(!a.encloses(&joined));
}

#[test]
fn grow_takes_in_a_point() {
    let a = boxed((0, 0, 0), (2, 2, 2));
    assert_eq!(a.grow(&Point3::new(1, 1, 1)), a);
    assert_eq!(a.grow(&Point3::new(-5, 1, 9)), boxed((-5, 0, 0), (2, 2, 9)));
    let p = Point3::new(7, -8, 9);
    assert_eq!(AABB::empty().grow(&p), AABB::with_bounds(p, p));
}

#[test]
fn contains_counts_the_faces() {
    let a = boxed((0, 0, 0), (2, 4, 6));
    assert!(a.contains(&Point3::new(0, 0, 0)));
    assert!(a.contains(&Point3::new(2, 4, 6)));
    assert!(a.contains(&Point3::new(1, 4, 0)));
    assert!(!a.contains(&Point3::new(3, 4, 6)));
    assert!(!a.contains(&Point3::new(1, -1, 3)));
    assert!(!a.contains(&Point3::new(1, 1, 7)));
}

#[test]
fn extent_is_zero_across_an_inverted_axis() {
    let a = boxed((0, 5, -3), (2, 1, 3));
    assert_eq!(a.extent(Axis::X), 2);
    assert_eq!(a.extent(Axis::Y), 0);
    assert_eq!(a.extent(Axis::Z), 6);
    let whole = boxed((i32::MIN, 0, 0), (i32::MAX, 0, 0));
    assert_eq!(whole.extent(Axis::X), u32::MAX);
    assert_eq!(AABB::empty().extent(Axis::X), 0);
}

#[test]
fn center_rounds_down() {
    assert_eq!(boxed((0, 0, 0), (2, 4, 6)).center(), Point3::new(1, 2, 3));
    assert_eq!(boxed((0, 0, 0), (1, 3, 5)).center(), Point3::new(0, 1, 2));
    assert_eq!(boxed((-1, -3, -5), (0, 0, 0)).center(), Point3::new(-1, -2, -3));
    assert_eq!(boxed((-7, -7, -7), (-7, -7, -7)).center(), Point3::new(-7, -7, -7));
    assert_eq!(
        boxed((i32::MIN, i32::MAX, i32::MIN), (i32::MIN, i32::MAX, i32::MAX)).center(),
        Point3::new(i32::MIN, i32::MAX, -1)
    );
}

#[test]
fn surface_area_of_a_box() {
    assert_eq!(boxed((0, 0, 0), (2, 3, 4)).surface_area(), 52);
    assert_eq!(boxed((-1, -1, -1), (1, 1, 1)).surface_area(), 24);
    assert_eq!(boxed((0, 0, 0), (5, 7, 0)).surface_area(), 70);
    assert_eq!(boxed((0, 0, 0), (5, 0, 0)).surface_area(), 0);
    assert_eq!(boxed((3, 3, 3), (3, 3, 3)).surface_area(), 0);
    assert_eq!(AABB::empty().surface_area(), 0);
    let whole = boxed((i32::MIN, i32::MIN, i32::MIN), (i32::MAX, i32::MAX, i32::MAX));
    assert_eq!(whole.surface_area(), 6 * (u32::MAX as u128) * (u32::MAX as u128));
}

#[test]
fn largest_axis_and_its_ties() {
    assert_eq!(boxed((0, 0, 0), (9, 3, 4)).largest_axis(), Axis::X);
    assert_eq!(boxed((0, 0, 0), (2, 9, 4)).largest_axis(), Axis::Y);
    assert_eq!(boxed((0, 0, 0), (2, 3, 9)).largest_axis(), Axis::Z);
    assert_eq!(boxed((0, 0, 0), (9, 9, 4)).largest_axis(), Axis::Y);
    assert_eq!(boxed((0, 0, 0), (9, 3, 9)).largest_axis(), Axis::Z);
    assert_eq!(boxed((0, 0, 0), (2, 9, 9)).largest_axis(), Axis::Z);
    assert_eq!(boxed((0, 0, 0), (5, 5, 5)).largest_axis(), Axis::Z);
}

#[test]
fn a_box_is_its_own_bounding_box() {
    let a = boxed((1, 2, 3), (4, 5, 6));
    assert_eq!(a.aabb(), a);
}

#[test]
fn epsilon_is_one_step() {
    assert_eq!(EPSILON, 1);
}

#[test]
fn binning_spans_the_largest_axis() {
    let bins = Binning::new(&boxed((0, -20, 5), (10, 30, 6)));
    assert_eq!(bins, Binning { axis: Axis::Y, start: -20, extent: 50 });
}

#[test]
fn bucket_numbers_along_a_row() {
    let bins = Binning { axis: Axis::X, start: 0, extent: 50 };
    let at = |x: i32| bins.bucket_of(&boxed((x - 1, 0, 0), (x + 1, 0, 0)));
    assert_eq!(at(0), 0);
    assert_eq!(at(8), 0);
    assert_eq!(at(9), 1);
    assert_eq!(at(10), 1);
    assert_eq!(at(20), 2);
    assert_eq!(at(25), 2);
    assert_eq!(at(26), 3);
    assert_eq!(at(30), 3);
    assert_eq!(at(40), 4);
    assert_eq!(at(41), 4);
    assert_eq!(at(42), 5);
    assert_eq!(at(50), 5);
}

#[test]
fn bucket_numbers_in_the_shortest_and_the_longest_row() {
    let bins = Binning { axis: Axis::Z, start: -3, extent: 1 };
    assert_eq!(bins.bucket_of(&boxed((0, 0, -3), (0, 0, -3))), 0);
    assert_eq!(bins.bucket_of(&boxed((0, 0, -2), (0, 0, -2))), 5);
    let bins = Binning { axis: Axis::Y, start: i32::MIN, extent: u32::MAX };
    assert_eq!(bins.bucket_of(&boxed((0, i32::MIN, 0), (0, i32::MIN, 0))), 0);
    assert_eq!(bins.bucket_of(&boxed((0, 0, 0), (0, 0, 0))), 2);
    // The third bucket ends and the fourth begins between 3585114 and 3585115.
    assert_eq!(bins.bucket_of(&boxed((0, 3585114, 0), (0, 3585114, 0))), 2);
    assert_eq!(bins.bucket_of(&boxed((0, 3585115, 0), (0, 3585115, 0))), 3);
    assert_eq!(bins.bucket_of(&boxed((0, i32::MAX, 0), (0, i32::MAX, 0))), 5);
}

#[test]
fn split_costs_compare_by_weight() {
    let small = boxed((0, 0, 0), (1, 1, 1));
    let large = boxed((0, 0, 0), (2, 3, 4));
    // 3 * 6 + 2 * 52 = 122 against 2 * 6 + 3 * 52 = 168
    let light = SplitCost::of_split(3, &small, 2, &large);
    let heavy = SplitCost::of_split(2, &small, 3, &large);
    assert!(light.less_than(&heavy));
    assert!(!heavy.less_than(&light));
    assert!(!light.less_than(&light));
    // 1 * 52 + 17 * 6 = 154 = 2 * 52 + 50 * 1 * 1
    let unit = boxed((0, 0, 0), (1, 0, 0));
    let same = SplitCost::of_split(1, &large, 17, &small);
    let again = SplitCost::of_split(17, &small, 1, &large);
    assert!(!same.less_than(&again));
    assert!(!again.less_than(&same));
    let none = SplitCost::of_split(1000, &unit, 1000, &AABB::empty());
    assert!(none.less_than(&light));
    assert!(!light.less_than(&none));
}

#[test]
fn split_costs_beyond_128_bits() {
    let whole = boxed((i32::MIN, i32::MIN, i32::MIN), (i32::MAX, i32::MAX, i32::MAX));
    let small = boxed((0, 0, 0), (1, 1, 1));
    let most = usize::MAX;
    let a = SplitCost::of_split(most, &whole, 0, &small);
    let b = SplitCost::of_split(most, &whole, 1, &small);
    let c = SplitCost::of_split(most - 1, &whole, most, &small);
    let d = SplitCost::of_split(most - 1, &whole, 1, &whole);
    assert!(a.less_than(&b));
    assert!(!b.less_than(&a));
    // c exceeds a by 6 * (2^33 - 2), and d is a.
    assert!(a.less_than(&c));
    assert!(!c.less_than(&a));
    assert!(b.less_than(&c));
    assert!(!a.less_than(&d));
    assert!(!d.less_than(&a));
    assert!(d.less_than(&b));
}

fn ray(origin: (i32, i32, i32), direction: (i32, i32, i32)) -> Ray {
    Ray::new(
        Point3::new(origin.0, origin.1, origin.2),
        Vector3::new(direction.0, direction.1, direction.2),
    )
}

#[test]
fn ray_keeps_what_it_is_given() {
    let r = ray((1, 2, 3), (-4, 0, 6));
    assert_eq!(r.origin, Point3::new(1, 2, 3));
    assert_eq!(r.direction, Vector3 { x: -4, y: 0, z: 6 });
}

#[test]
fn ray_meets_boxes_ahead_only() {
    let b = boxed((10, -1, -1), (12, 1, 1));
    assert!(ray((0, 0, 0), (1, 0, 0)).intersects_aabb(&b));
    assert!(!ray((0, 0, 0), (-1, 0, 0)).intersects_aabb(&b));
    assert!(ray((20, 0, 0), (-1, 0, 0)).intersects_aabb(&b));
    assert!(ray((11, 0, 0), (1, 0, 0)).intersects_aabb(&b));
    assert!(ray((11, 0, 0), (0, 0, 0)).intersects_aabb(&b));
    assert!(!ray((13, 0, 0), (0, 0, 0)).intersects_aabb(&b));
    assert!(!ray((13, 0, 0), (1, 0, 0)).intersects_aabb(&b));
}

#[test]
fn ray_touching_a_box_meets_it() {
    let b = boxed((10, -1, -1), (12, 1, 1));
    // Starts on a face, leaves at once.
    assert!(ray((12, 0, 0), (1, 0, 0)).intersects_aabb(&b));
    // Runs along an edge.
    assert!(ray((0, 1, 1), (1, 0, 0)).intersects_aabb(&b));
    assert!(!ray((0, 2, 1), (1, 0, 0)).intersects_aabb(&b));
    // Grazes a corner, at parameter 4.
    assert!(ray((8, 5, 0), (1, -1, 0)).intersects_aabb(&b));
    assert!(!ray((8, 6, 0), (1, -1, 0)).intersects_aabb(&b));
}

#[test]
fn ray_between_lattice_points() {
    // The ray is in the box only for parameters between 1/3 and 1/2.
    let b = boxed((1, 0, 0), (5, 1, 0));
    assert!(ray((0, 2, 0), (3, -2, 0)).intersects_aabb(&b));
    assert!(ray((0, 2, 0), (6, -4, 0)).intersects_aabb(&b));
    // Leaves the slab across y before it enters the slab across x.
    let b = boxed((3, 3, 0), (5, 5, 0));
    assert!(!ray((0, 2, 0), (1, 2, 0)).intersects_aabb(&b));
    assert!(ray((0, 2, 0), (3, 2, 0)).intersects_aabb(&b));
}

#[test]
fn ray_never_meets_an_inverted_box() {
    let inverted = boxed((5, 0, 0), (4, 9, 9));
    assert!(!ray((0, 1, 1), (1, 0, 0)).intersects_aabb(&inverted));
    assert!(!ray((5, 1, 1), (0, 0, 0)).intersects_aabb(&inverted));
    assert!(!ray((4, 1, 1), (0, 1, 0)).intersects_aabb(&inverted));
    assert!(!ray((0, 0, 0), (1, 1, 1)).intersects_aabb(&AABB::empty()));
}

#[test]
fn ray_across_the_whole_lattice() {
    let far = boxed((i32::MAX - 1, i32::MAX - 1, i32::MAX - 1), (i32::MAX, i32::MAX, i32::MAX));
    assert!(ray((i32::MIN, i32::MIN, i32::MIN), (1, 1, 1)).intersects_aabb(&far));
    assert!(ray((i32::MIN, i32::MIN, i32::MIN), (i32::MAX, i32::MAX, i32::MAX)).intersects_aabb(&far));
    assert!(!ray((i32::MIN, i32::MIN, i32::MIN), (i32::MAX, i32::MAX, i32::MAX - 1))
        .intersects_aabb(&far));
    assert!(!ray((i32::MIN, i32::MIN, i32::MIN), (i32::MIN, i32::MIN, i32::MIN))
        .intersects_aabb(&far));
    let near = boxed((i32::MIN, i32::MIN, i32::MIN), (i32::MIN, i32::MIN, i32::MIN));
    assert!(ray((i32::MAX, i32::MAX, i32::MAX), (i32::MIN, i32::MIN, i32::MIN))
        .intersects_aabb(&near));
}
