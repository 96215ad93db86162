use bvh::aabb::{Bounded, Point3, AABB};
use bvh::bounding_hierarchy::BoundingHierarchy;
use bvh::bvh::{BVHNode, BVH};
use bvh::ray::{Ray, Vector3};

/// Half a lattice step stands for `0.5`: coordinates are doubled.
fn steps(v: f32) -> i32 {
    (v * 2.0) as i32
}

/// A box of edge length one, centred on the x-axis.
struct XBox {
    x: i32,
}

impl Bounded for XBox {
    fn aabb(&self) -> AABB {
        let x = self.x as f32;
        let min = Point3::new(steps(x - 0.5), steps(-0.5), steps(-0.5));
        let max = Point3::new(steps(x + 0.5), steps(0.5), steps(0.5));
        AABB::with_bounds(min, max)
    }
}

fn build_some_bh<BH: BoundingHierarchy>() -> (Vec<XBox>, BH) {
    let mut shapes = Vec::new();
    for x in -10..11 {
        shapes.push(XBox { x });
    }
    let bh = BH::build(&shapes);
    (shapes, bh)
}

fn hit_xs<BH: BoundingHierarchy>(
    bh: &BH,
    shapes: &[XBox],
    origin: (f32, f32, f32),
    direction: (i32, i32, i32),
) -> Vec<i32> {
    let ray = Ray::new(
        Point3::new(steps(origin.0), steps(origin.1), steps(origin.2)),
        Vector3::new(direction.0, direction.1, direction.2),
    );
    let mut xs: Vec<i32> = bh.traverse(&ray, shapes).iter().map(|shape| shape.x).collect();
    xs.sort();
    xs
}

fn traverse_some_bh<BH: BoundingHierarchy>() {
    let (shapes, bh) = build_some_bh::<BH>();

    // A ray along the x-axis, from afar, meets all boxes.
    let xs = hit_xs(&bh, &shapes, (-1000.0, 0.0, 0.0), (1, 0, 0));
    assert_eq!(xs.len(), 21);
    assert_eq!(xs, (-10..11).collect::<Vec<i32>>());

    // A ray along the y-axis, from afar, meets only the box in the middle.
    let xs = hit_xs(&bh, &shapes, (0.0, -1000.0, 0.0), (0, 1, 0));
    assert_eq!(xs, vec![0]);

    // A ray that crosses the x-axis diagonally meets exactly three boxes.
    let xs = hit_xs(&bh, &shapes, (6.0, 0.5, 0.0), (-2, -1, 0));
    assert_eq!(xs, vec![4, 5, 6]);
}

fn collect_leaves(node: &BVHNode, out: &mut Vec<usize>) {
    match node {
        BVHNode::Leaf { shapes } => out.extend(shapes.iter().copied()),
        BVHNode::Node { child_l, child_r, .. } => {
            collect_leaves(child_l, out);
            collect_leaves(child_r, out);
        }
    }
}

fn unit_cube(x: i32, y: i32, z: i32) -> AABB {
    AABB::with_bounds(Point3::new(x - 1, y - 1, z - 1), Point3::new(x + 1, y + 1, z + 1))
}

fn diagonal_cubes(count: i32) -> Vec<AABB> {
    (0..count).map(|i| unit_cube(i, i, i)).collect()
}

fn scan(ray: &Ray, shapes: &[AABB]) -> Vec<usize> {
    (0..shapes.len()).filter(|&i| ray.intersects_aabb(&shapes[i])).collect()
}

fn found(bvh: &BVH, ray: &Ray, shapes: &[AABB]) -> Vec<usize> {
    let mut candidates = Vec::new();
    bvh.root.traverse_recursive(ray, &mut candidates);
    candidates.retain(|&i| ray.intersects_aabb(&shapes[i]));
    candidates
}

#[test]
fn test_build_bvh() {
    build_some_bh::<BVH>();
}

#[test]
fn test_traverse_bvh() {
    traverse_some_bh::<BVH>();
}

#[test]
fn hierarchy_and_its_trait_agree() {
    let shapes = diagonal_cubes(100);
    let direct = BVH::build(&shapes);
    let by_trait: BVH = BoundingHierarchy::build(&shapes);
    assert!(same_tree(&direct.root, &by_trait.root));
    let ray = Ray::new(Point3::new(40, 40, 0), Vector3::new(0, 0, 1));
    let a = direct.traverse(&ray, &shapes);
    let b = BoundingHierarchy::traverse(&by_trait, &ray, &shapes);
    assert_eq!(a, b);
    assert_eq!(a, vec![&shapes[39], &shapes[40], &shapes[41]]);
}

#[test]
fn every_shape_is_in_exactly_one_leaf() {
    let shapes = diagonal_cubes(1000);
    let bvh = BVH::build(&shapes);
    let mut leaves = Vec::new();
    collect_leaves(&bvh.root, &mut leaves);
    leaves.sort();
    assert_eq!(leaves, (0..1000).collect::<Vec<usize>>());
}

#[test]
fn node_build_keeps_repeated_indices() {
    let shapes = diagonal_cubes(40);
    let indices = vec![3, 3, 17, 0, 39, 12, 12, 12, 25, 8];
    let node = BVHNode::build(&shapes, indices.clone());
    let mut leaves = Vec::new();
    collect_leaves(&node, &mut leaves);
    leaves.sort();
    let mut expected = indices;
    expected.sort();
    assert_eq!(leaves, expected);
}

fn check_boxes_enclose(node: &BVHNode, shapes: &[AABB]) {
    if let BVHNode::Node { child_l_aabb, child_l, child_r_aabb, child_r } = node {
        let mut below = Vec::new();
        collect_leaves(child_l, &mut below);
        assert!(!below.is_empty());
        let mut tight = AABB::empty();
        for &i in &below {
            assert!(child_l_aabb.encloses(&shapes[i]));
            tight = tight.join(&shapes[i]);
        }
        assert_eq!(*child_l_aabb, tight);
        let mut below = Vec::new();
        collect_leaves(child_r, &mut below);
        assert!(!below.is_empty());
        let mut tight = AABB::empty();
        for &i in &below {
            assert!(child_r_aabb.encloses(&shapes[i]));
            tight = tight.join(&shapes[i]);
        }
        assert_eq!(*child_r_aabb, tight);
        check_boxes_enclose(child_l, shapes);
        check_boxes_enclose(child_r, shapes);
    }
}

#[test]
fn child_boxes_are_the_hulls_of_their_shapes() {
    let shapes = diagonal_cubes(1000);
    let bvh = BVH::build(&shapes);
    check_boxes_enclose(&bvh.root, &shapes);
}

fn check_leaves(node: &BVHNode, shapes: &[AABB]) {
    match node {
        BVHNode::Leaf { shapes: members } => {
            if members.len() > 5 {
                let first = shapes[members[0]].center();
                for &i in members {
                    assert_eq!(shapes[i].center(), first);
                }
            }
        }
        BVHNode::Node { child_l, child_r, .. } => {
            check_leaves(child_l, shapes);
            check_leaves(child_r, shapes);
        }
    }
}

#[test]
fn leaves_are_small_or_of_coincident_centres() {
    let mut shapes = diagonal_cubes(200);
    for size in 1..10 {
        shapes.push(AABB::with_bounds(
            Point3::new(50 - size, 50 - size, 50 - size),
            Point3::new(50 + size, 50 + size, 50 + size),
        ));
    }
    let bvh = BVH::build(&shapes);
    check_leaves(&bvh.root, &shapes);
}

#[test]
fn shapes_of_one_centre_stay_in_one_leaf() {
    let shapes: Vec<AABB> = (1..8)
        .map(|size| {
            AABB::with_bounds(Point3::new(-size, -size, -size), Point3::new(size, size, size))
        })
        .collect();
    let bvh = BVH::build(&shapes);
    match bvh.root {
        BVHNode::Leaf { shapes } => assert_eq!(shapes, vec![0, 1, 2, 3, 4, 5, 6]),
        BVHNode::Node { .. } => panic!("shapes with one centre were split"),
    }
}

#[test]
fn traversal_returns_exactly_the_hit_shapes() {
    let shapes = diagonal_cubes(1000);
    let bvh = BVH::build(&shapes);
    let rays = [
        Ray::new(Point3::new(0, 0, 0), Vector3::new(1, 1, 1)),
        Ray::new(Point3::new(500, 0, 0), Vector3::new(0, 1, 0)),
        Ray::new(Point3::new(0, 30, 0), Vector3::new(1, 0, 1)),
        Ray::new(Point3::new(-5, -5, -5), Vector3::new(-1, -1, -1)),
        Ray::new(Point3::new(2000, 2000, 2000), Vector3::new(-3, -3, -2)),
        Ray::new(Point3::new(10, 11, 12), Vector3::new(7, 5, 3)),
        Ray::new(Point3::new(700, 700, 700), Vector3::new(0, 0, 0)),
    ];
    for ray in &rays {
        let mut hits = found(&bvh, ray, &shapes);
        hits.sort();
        assert_eq!(hits, scan(ray, &shapes));
        assert_eq!(bvh.traverse(ray, &shapes).len(), hits.len());
    }
}

#[test]
fn diagonal_ray_through_a_thousand_cubes() {
    let shapes = diagonal_cubes(1000);
    let bvh = BVH::build(&shapes);
    let ray = Ray::new(Point3::new(0, 0, 0), Vector3::new(1, 1, 1));
    let expected = scan(&ray, &shapes);
    assert_eq!(expected.len(), 1000);
    let hits = bvh.traverse(&ray, &shapes);
    assert_eq!(hits.len(), 1000);
    let mut seen = vec![false; 1000];
    for hit in hits {
        let i = (hit.min.x + 1) as usize;
        assert_eq!(*hit, shapes[i]);
        assert!(!seen[i]);
        seen[i] = true;
    }
    assert!(seen.iter().all(|&s| s));
}

#[test]
fn traverse_returns_references_into_the_shapes() {
    let shapes = diagonal_cubes(30);
    let bvh = BVH::build(&shapes);
    let ray = Ray::new(Point3::new(12, 12, 0), Vector3::new(0, 0, 1));
    let hits = bvh.traverse(&ray, &shapes);
    assert_eq!(hits.len(), 3);
    for hit in hits {
        let i = (hit.min.x + 1) as usize;
        assert!(std::ptr::eq(hit, &shapes[i]));
        assert!(i == 11 || i == 12 || i == 13);
    }
}

#[test]
fn empty_input_gives_an_empty_leaf_and_no_hits() {
    let shapes: Vec<AABB> = Vec::new();
    let bvh = BVH::build(&shapes);
    match &bvh.root {
        BVHNode::Leaf { shapes } => assert!(shapes.is_empty()),
        BVHNode::Node { .. } => panic!("an empty hierarchy has no inner node"),
    }
    let rays = [
        Ray::new(Point3::new(0, 0, 0), Vector3::new(1, 1, 1)),
        Ray::new(Point3::new(-7, 3, 9), Vector3::new(0, 0, 0)),
        Ray::new(Point3::new(i32::MAX, i32::MIN, 0), Vector3::new(i32::MIN, i32::MAX, 1)),
    ];
    for ray in &rays {
        assert!(bvh.traverse(ray, &shapes).is_empty());
    }
}

#[test]
fn up_to_five_shapes_stay_in_one_leaf() {
    let far_apart = [
        unit_cube(-1000000, 0, 0),
        unit_cube(1000000, 0, 0),
        unit_cube(0, -1000000, 7),
        unit_cube(0, 1000000, -7),
        unit_cube(3, 3, 2000000000),
    ];
    for count in 0..6 {
        let shapes = &far_apart[..count];
        let bvh = BVH::build(shapes);
        match bvh.root {
            BVHNode::Leaf { shapes } => assert_eq!(shapes, (0..count).collect::<Vec<usize>>()),
            BVHNode::Node { .. } => panic!("a small group was split"),
        }
    }
    let node = BVHNode::build(&far_apart, vec![4, 2, 2, 0, 1]);
    match node {
        BVHNode::Leaf { shapes } => assert_eq!(shapes, vec![4, 2, 2, 0, 1]),
        BVHNode::Node { .. } => panic!("a small group was split"),
    }
}

fn same_tree(a: &BVHNode, b: &BVHNode) -> bool {
    match (a, b) {
        (BVHNode::Leaf { shapes: x }, BVHNode::Leaf { shapes: y }) => x == y,
        (
            BVHNode::Node { child_l_aabb: la, child_l: l, child_r_aabb: ra, child_r: r },
            BVHNode::Node { child_l_aabb: lb, child_l: m, child_r_aabb: rb, child_r: s },
        ) => la == lb && ra == rb && same_tree(l, m) && same_tree(r, s),
        _ => false,
    }
}

#[test]
fn building_twice_gives_the_same_tree() {
    let shapes = diagonal_cubes(300);
    let first = BVH::build(&shapes);
    let second = BVH::build(&shapes);
    assert!(same_tree(&first.root, &second.root));
    let copies = shapes.clone();
    let third = BVH::build(&copies);
    assert!(same_tree(&first.root, &third.root));
}

#[test]
fn six_cubes_in_a_row_are_cut_in_the_middle() {
    // One cube per bucket. The cuts weigh 1744, 1264, 1104, 1264 and 1744.
    let shapes: Vec<AABB> = (0..6).map(|i| unit_cube(10 * i, 0, 0)).collect();
    let bvh = BVH::build(&shapes);
    let expected = BVHNode::Node {
        child_l_aabb: AABB::with_bounds(Point3::new(-1, -1, -1), Point3::new(21, 1, 1)),
        child_l: Box::new(BVHNode::Leaf { shapes: vec![0, 1, 2] }),
        child_r_aabb: AABB::with_bounds(Point3::new(29, -1, -1), Point3::new(51, 1, 1)),
        child_r: Box::new(BVHNode::Leaf { shapes: vec![3, 4, 5] }),
    };
    assert!(same_tree(&bvh.root, &expected));
}

#[test]
fn members_of_a_bucket_keep_their_order() {
    // Centres at 50, 0, 49, 1, 25, 26, 2: buckets 5, 0, 5, 0, 2, 3, 0.
    let xs = [50, 0, 49, 1, 25, 26, 2];
    let shapes: Vec<AABB> = xs.iter().map(|&x| unit_cube(x, 0, 0)).collect();
    let bvh = BVH::build(&shapes);
    let mut leaves = Vec::new();
    collect_leaves(&bvh.root, &mut leaves);
    assert_eq!(leaves, vec![1, 3, 6, 4, 5, 0, 2]);
}

#[test]
fn shapes_without_surface_are_cut_behind_the_first_bucket() {
    // Points have no surface: no cut costs less than another, the first one stays.
    let shapes: Vec<AABB> = (0..6)
        .map(|i| AABB::with_bounds(Point3::new(10 * i, 0, 0), Point3::new(10 * i, 0, 0)))
        .collect();
    let bvh = BVH::build(&shapes);
    let expected = BVHNode::Node {
        child_l_aabb: AABB::with_bounds(Point3::new(0, 0, 0), Point3::new(0, 0, 0)),
        child_l: Box::new(BVHNode::Leaf { shapes: vec![0] }),
        child_r_aabb: AABB::with_bounds(Point3::new(10, 0, 0), Point3::new(50, 0, 0)),
        child_r: Box::new(BVHNode::Leaf { shapes: vec![1, 2, 3, 4, 5] }),
    };
    assert!(same_tree(&bvh.root, &expected));
}

#[test]
fn walk_collects_whole_leaves_in_tree_order() {
    let shapes: Vec<AABB> = (0..6).map(|i| unit_cube(10 * i, 0, 0)).collect();
    let bvh = BVH::build(&shapes);
    // Meets the right child's box, and in it only the cube at 40.
    let ray = Ray::new(Point3::new(40, -5, 0), Vector3::new(0, 1, 0));
    let mut candidates = vec![99];
    bvh.root.traverse_recursive(&ray, &mut candidates);
    assert_eq!(candidates, vec![99, 3, 4, 5]);
    let hits = bvh.traverse(&ray, &shapes);
    assert_eq!(hits.len(), 1);
    assert_eq!(*hits[0], shapes[4]);
    // Along the row: both children, left one first.
    let ray = Ray::new(Point3::new(60, 0, 0), Vector3::new(-1, 0, 0));
    let mut candidates = Vec::new();
    bvh.root.traverse_recursive(&ray, &mut candidates);
    assert_eq!(candidates, vec![0, 1, 2, 3, 4, 5]);
    // Past the row: neither child.
    let ray = Ray::new(Point3::new(60, 5, 0), Vector3::new(-1, 0, 0));
    let mut candidates = Vec::new();
    bvh.root.traverse_recursive(&ray, &mut candidates);
    assert!(candidates.is_empty());
}

#[test]
fn inverted_boxes_are_organized_and_never_hit() {
    let mut shapes = diagonal_cubes(20);
    shapes[7] = AABB::with_bounds(Point3::new(9, 9, 9), Point3::new(5, 5, 5));
    shapes[13] = AABB::with_bounds(Point3::new(i32::MAX, 0, 0), Point3::new(i32::MIN, 1, 1));
    let bvh = BVH::build(&shapes);
    let mut leaves = Vec::new();
    collect_leaves(&bvh.root, &mut leaves);
    leaves.sort();
    assert_eq!(leaves, (0..20).collect::<Vec<usize>>());
    let ray = Ray::new(Point3::new(0, 0, 0), Vector3::new(1, 1, 1));
    let mut hits = found(&bvh, &ray, &shapes);
    hits.sort();
    assert_eq!(hits, scan(&ray, &shapes));
    assert_eq!(hits.len(), 18);
}

#[test]
fn boxes_at_the_ends_of_the_lattice() {
    let shapes = vec![
        AABB::with_bounds(
            Point3::new(i32::MIN, i32::MIN, i32::MIN),
            Point3::new(i32::MIN + 2, i32::MIN + 2, i32::MIN + 2),
        ),
        AABB::with_bounds(
            Point3::new(i32::MAX - 2, i32::MAX - 2, i32::MAX - 2),
            Point3::new(i32::MAX, i32::MAX, i32::MAX),
        ),
        AABB::with_bounds(
            Point3::new(i32::MIN, i32::MIN, i32::MIN),
            Point3::new(i32::MAX, i32::MAX, i32::MAX),
        ),
        unit_cube(0, 0, 0),
        unit_cube(1000, -1000, 5),
        unit_cube(-1000, 1000, -5),
        unit_cube(2000000, 1, 1),
    ];
    let bvh = BVH::build(&shapes);
    check_boxes_enclose(&bvh.root, &shapes);
    let ray = Ray::new(
        Point3::new(i32::MIN, i32::MIN, i32::MIN),
        Vector3::new(i32::MAX, i32::MAX, i32::MAX),
    );
    let mut hits = found(&bvh, &ray, &shapes);
    hits.sort();
    assert_eq!(hits, vec![0, 1, 2, 3]);
    let ray = Ray::new(
        Point3::new(i32::MAX, i32::MAX, i32::MAX),
        Vector3::new(i32::MIN, i32::MIN, i32::MIN),
    );
    let mut hits = found(&bvh, &ray, &shapes);
    hits.sort();
    assert_eq!(hits, vec![0, 1, 2, 3]);
}
