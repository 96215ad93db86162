//! Axis-aligned bounding boxes on the integer lattice.

use vstd::prelude::*;

verus! {

/// One of the three coordinate axes.
#[derive(Clone, Copy, Debug, PartialEq, Eq, Structural)]
pub enum Axis {
    X,
    Y,
    Z,
}

/// A lattice point.
#[derive(Clone, Copy, Debug, PartialEq, Eq, Structural)]
pub struct Point3 {
    pub x: i32,
    pub y: i32,
    pub z: i32,
}

impl Point3 {
    /// The coordinate of this point along `axis`.
    pub open spec fn coord(self, axis: Axis) -> int {
        match axis {
            Axis::X => self.x as int,
            Axis::Y => self.y as int,
            Axis::Z => self.z as int,
        }
    }

    pub fn new(x: i32, y: i32, z: i32) -> (p: Point3)
        ensures
            p == (Point3 { x, y, z }),
    {
        Point3 { x, y, z }
    }

    /// Reads the coordinate along `axis`.
    pub fn get(&self, axis: Axis) -> (c: i32)
        ensures
            c == self.coord(axis),
    {
        match axis {
            Axis::X => self.x,
            Axis::Y => self.y,
            Axis::Z => self.z,
        }
    }
}

/// The smaller of two integers.
pub open spec fn lower(a: int, b: int) -> int {
    if a <= b {
        a
    } else {
        b
    }
}

/// The larger of two integers.
pub open spec fn upper(a: int, b: int) -> int {
    if a >= b {
        a
    } else {
        b
    }
}

fn lower_of(a: i32, b: i32) -> (m: i32)
    ensures
        m == lower(a as int, b as int),
{
    if a <= b {
        a
    } else {
        b
    }
}

fn upper_of(a: i32, b: i32) -> (m: i32)
    ensures
        m == upper(a as int, b as int),
{
    if a >= b {
        a
    } else {
        b
    }
}

/// Distance from `lo` up to `hi`, or zero where `hi` lies below `lo`.
pub open spec fn span(lo: int, hi: int) -> nat {
    if hi >= lo {
        (hi - lo) as nat
    } else {
        0
    }
}

/// The lattice point at, or half a step below, the middle of `lo` and `hi`.
pub open spec fn midpoint(lo: int, hi: int) -> int {
    (lo + hi) / 2
}

fn span_of(lo: i32, hi: i32) -> (s: u32)
    ensures
        s == span(lo as int, hi as int),
{
    if hi >= lo {
        let d: i64 = hi as i64 - lo as i64;
        d as u32
    } else {
        0
    }
}

fn midpoint_of(lo: i32, hi: i32) -> (m: i32)
    ensures
        m == midpoint(lo as int, hi as int),
{
    let sum: i64 = lo as i64 + hi as i64;
    let half: i64 = (sum + 0x1_0000_0000) / 2 - 0x8000_0000;
    half as i32
}

/// An axis-aligned box given by its two extreme corners. A point lies in the box
/// when each of its coordinates lies between the corners' coordinates, ends
/// included. A box whose `min` exceeds its `max` along some axis holds no point.
#[derive(Clone, Copy, Debug, PartialEq, Eq, Structural)]
pub struct AABB {
    pub min: Point3,
    pub max: Point3,
}

impl AABB {
    /// The box that holds no point and leaves every box unchanged when joined with it.
    pub open spec fn spec_empty() -> AABB {
        AABB {
            min: Point3 { x: i32::MAX, y: i32::MAX, z: i32::MAX },
            max: Point3 { x: i32::MIN, y: i32::MIN, z: i32::MIN },
        }
    }

    /// Whether `p` lies in the box.
    pub open spec fn spec_contains(&self, p: &Point3) -> bool {
        &&& self.min.x <= p.x <= self.max.x
        &&& self.min.y <= p.y <= self.max.y
        &&& self.min.z <= p.z <= self.max.z
    }

    /// Whether the box reaches at least as far as `inner` in all six directions.
    pub open spec fn spec_encloses(&self, inner: &AABB) -> bool {
        &&& self.min.x <= inner.min.x && inner.max.x <= self.max.x
        &&& self.min.y <= inner.min.y && inner.max.y <= self.max.y
        &&& self.min.z <= inner.min.z && inner.max.z <= self.max.z
    }

    /// The smallest box that reaches as far as both boxes in every direction.
    pub open spec fn spec_join(&self, other: &AABB) -> AABB {
        AABB {
            min: Point3 {
                x: lower(self.min.x as int, other.min.x as int) as i32,
                y: lower(self.min.y as int, other.min.y as int) as i32,
                z: lower(self.min.z as int, other.min.z as int) as i32,
            },
            max: Point3 {
                x: upper(self.max.x as int, other.max.x as int) as i32,
                y: upper(self.max.y as int, other.max.y as int) as i32,
                z: upper(self.max.z as int, other.max.z as int) as i32,
            },
        }
    }

    /// The smallest box that reaches as far as this box and also holds `p`.
    pub open spec fn spec_grow(&self, p: &Point3) -> AABB {
        self.spec_join(&AABB { min: *p, max: *p })
    }

    /// Edge length along `axis`; zero where the box is inverted along it.
    pub open spec fn spec_extent(&self, axis: Axis) -> nat {
        span(self.min.coord(axis), self.max.coord(axis))
    }

    /// The centre of the box, rounded down to the lattice along each axis.
    pub open spec fn spec_center(&self) -> Point3 {
        Point3 {
            x: midpoint(self.min.x as int, self.max.x as int) as i32,
            y: midpoint(self.min.y as int, self.max.y as int) as i32,
            z: midpoint(self.min.z as int, self.max.z as int) as i32,
        }
    }

    /// Total area of the six faces.
    pub open spec fn spec_surface_area(&self) -> nat {
        let ex = self.spec_extent(Axis::X);
        let ey = self.spec_extent(Axis::Y);
        let ez = self.spec_extent(Axis::Z);
        2 * (ex * ey + ex * ez + ey * ez)
    }

    /// The axis of greatest extent. Where two axes tie for it, `Z` wins over `Y`
    /// and `Y` over `X`.
    pub open spec fn spec_largest_axis(&self) -> Axis {
        let ex = self.spec_extent(Axis::X);
        let ey = self.spec_extent(Axis::Y);
        let ez = self.spec_extent(Axis::Z);
        if ex > ey && ex > ez {
            Axis::X
        } else if ey > ez {
            Axis::Y
        } else {
            Axis::Z
        }
    }

    /// A box from its two extreme corners. The corners are taken as they are.
    pub fn with_bounds(min: Point3, max: Point3) -> (b: AABB)
        ensures
            b == (AABB { min, max }),
    {
        AABB { min, max }
    }

    #[verifier::when_used_as_spec(spec_empty)]
    pub fn empty() -> (b: AABB)
        ensures
            b == AABB::spec_empty(),
    {
        AABB {
            min: Point3 { x: i32::MAX, y: i32::MAX, z: i32::MAX },
            max: Point3 { x: i32::MIN, y: i32::MIN, z: i32::MIN },
        }
    }

    #[verifier::when_used_as_spec(spec_contains)]
    pub fn contains(&self, p: &Point3) -> (b: bool)
        ensures
            b == self.spec_contains(p),
    {
        self.min.x <= p.x && p.x <= self.max.x && self.min.y <= p.y && p.y <= self.max.y
            && self.min.z <= p.z && p.z <= self.max.z
    }

    #[verifier::when_used_as_spec(spec_encloses)]
    pub fn encloses(&self, inner: &AABB) -> (b: bool)
        ensures
            b == self.spec_encloses(inner),
    {
        self.min.x <= inner.min.x && inner.max.x <= self.max.x && self.min.y <= inner.min.y
            && inner.max.y <= self.max.y && self.min.z <= inner.min.z && inner.max.z
            <= self.max.z
    }

    #[verifier::when_used_as_spec(spec_join)]
    pub fn join(&self, other: &AABB) -> (b: AABB)
        ensures
            b == self.spec_join(other),
    {
        AABB {
            min: Point3 {
                x: lower_of(self.min.x, other.min.x),
                y: lower_of(self.min.y, other.min.y),
                z: lower_of(self.min.z, other.min.z),
            },
            max: Point3 {
                x: upper_of(self.max.x, other.max.x),
                y: upper_of(self.max.y, other.max.y),
                z: upper_of(self.max.z, other.max.z),
            },
        }
    }

    #[verifier::when_used_as_spec(spec_grow)]
    pub fn grow(&self, p: &Point3) -> (b: AABB)
        ensures
            b == self.spec_grow(p),
    {
        self.join(&AABB { min: *p, max: *p })
    }

    pub fn extent(&self, axis: Axis) -> (e: u32)
        ensures
            e == self.spec_extent(axis),
    {
        span_of(self.min.get(axis), self.max.get(axis))
    }

    #[verifier::when_used_as_spec(spec_center)]
    pub fn center(&self) -> (c: Point3)
        ensures
            c == self.spec_center(),
    {
        Point3 {
            x: midpoint_of(self.min.x, self.max.x),
            y: midpoint_of(self.min.y, self.max.y),
            z: midpoint_of(self.min.z, self.max.z),
        }
    }

    pub fn surface_area(&self) -> (a: u128)
        ensures
            a == self.spec_surface_area(),
    {
        let ex: u128 = self.extent(Axis::X) as u128;
        let ey: u128 = self.extent(Axis::Y) as u128;
        let ez: u128 = self.extent(Axis::Z) as u128;
        proof {
            lemma_face_bound(ex as nat, ey as nat);
            lemma_face_bound(ex as nat, ez as nat);
            lemma_face_bound(ey as nat, ez as nat);
        }
        2 * (ex * ey + ex * ez + ey * ez)
    }

    #[verifier::when_used_as_spec(spec_largest_axis)]
    pub fn largest_axis(&self) -> (axis: Axis)
        ensures
            axis == self.spec_largest_axis(),
    {
        let ex: u32 = self.extent(Axis::X);
        let ey: u32 = self.extent(Axis::Y);
        let ez: u32 = self.extent(Axis::Z);
        if ex > ey && ex > ez {
            Axis::X
        } else if ey > ez {
            Axis::Y
        } else {
            Axis::Z
        }
    }
}

/// The area of a face with edges that fit in 32 bits fits in 64 bits.
pub proof fn lemma_face_bound(a: nat, b: nat)
    requires
        a <= u32::MAX,
        b <= u32::MAX,
    ensures
        a * b <= 0xFFFF_FFFE_0000_0001,
{
    assert(a * b <= 0xFFFF_FFFF * 0xFFFF_FFFF) by (nonlinear_arith)
        requires
            a <= 0xFFFF_FFFF,
            b <= 0xFFFF_FFFF,
    ;
}

/// The surface area of any box stays below `2^67`.
pub proof fn lemma_surface_area_bound(b: AABB)
    ensures
        b.spec_surface_area() <= 6 * 0xFFFF_FFFE_0000_0001,
{
    let ex = b.spec_extent(Axis::X);
    let ey = b.spec_extent(Axis::Y);
    let ez = b.spec_extent(Axis::Z);
    lemma_face_bound(ex, ey);
    lemma_face_bound(ex, ez);
    lemma_face_bound(ey, ez);
}

/// Joining with the empty box changes nothing, on either side.
pub proof fn lemma_join_empty(b: AABB)
    ensures
        AABB::spec_empty().spec_join(&b) == b,
        b.spec_join(&AABB::spec_empty()) == b,
{
}

/// The order and the grouping of joins do not matter.
pub proof fn lemma_join_commutes_and_associates(a: AABB, b: AABB, c: AABB)
    ensures
        a.spec_join(&b) == b.spec_join(&a),
        a.spec_join(&b).spec_join(&c) == a.spec_join(&b.spec_join(&c)),
{
}

/// A join encloses both of its operands, and nothing smaller does: every box
/// that encloses both operands encloses the join.
pub proof fn lemma_join_is_least_enclosure(a: AABB, b: AABB, outer: AABB)
    ensures
        a.spec_join(&b).spec_encloses(&a),
        a.spec_join(&b).spec_encloses(&b),
        outer.spec_encloses(&a) && outer.spec_encloses(&b) ==> outer.spec_encloses(&a.spec_join(&b)),
{
}

/// Enclosure is transitive, and an enclosing box holds every point of the inner one.
pub proof fn lemma_encloses_transitive(outer: AABB, mid: AABB, inner: AABB, p: Point3)
    requires
        outer.spec_encloses(&mid),
    ensures
        mid.spec_encloses(&inner) ==> outer.spec_encloses(&inner),
        mid.spec_contains(&p) ==> outer.spec_contains(&p),
{
}

/// The capability that a shape must offer to be stored in a hierarchy: a bounding
/// box that is the same every time it is asked for.
pub trait Bounded {
    /// The shape's bounding box. A type states here which box it is that
    /// `aabb` returns; a type that states nothing leaves the box unknown.
    open spec fn spec_aabb(&self) -> AABB {
        arbitrary()
    }

    /// Returns the shape's bounding box.
    fn aabb(&self) -> (b: AABB)
        ensures
            b == self.spec_aabb(),
    ;
}

impl Bounded for AABB {
    open spec fn spec_aabb(&self) -> AABB {
        *self
    }

    fn aabb(&self) -> (b: AABB) {
        *self
    }
}

} // verus!
