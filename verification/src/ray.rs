//! Rays on the integer lattice and their exact intersection test against boxes.

use vstd::prelude::*;
use crate::aabb::{Axis, Point3, AABB};

verus! {

/// A displacement between lattice points.
#[derive(Clone, Copy, Debug, PartialEq, Eq, Structural)]
pub struct Vector3 {
    pub x: i32,
    pub y: i32,
    pub z: i32,
}

impl Vector3 {
    /// The component of this vector along `axis`.
    pub open spec fn coord(self, axis: Axis) -> int {
        match axis {
            Axis::X => self.x as int,
            Axis::Y => self.y as int,
            Axis::Z => self.z as int,
        }
    }

    pub fn new(x: i32, y: i32, z: i32) -> (v: Vector3)
        ensures
            v == (Vector3 { x, y, z }),
    {
        Vector3 { x, y, z }
    }
}

/// What a box asks of a ray along one axis. The ray's point at parameter `t` lies
/// between the box's two faces across that axis exactly when
/// `entry <= t * speed <= exit`. `speed` is never negative; where it is zero the
/// ray runs parallel to the faces, and the condition no longer depends on `t`.
#[derive(Clone, Copy, Debug, PartialEq, Eq, Structural)]
pub struct Slab {
    pub entry: i64,
    pub exit: i64,
    pub speed: i64,
}

impl Slab {
    /// The slab of a ray that starts at coordinate `origin` and moves by `step`
    /// per unit of its parameter, for the faces at `lo` and `hi`.
    pub open spec fn between(origin: i32, step: i32, lo: i32, hi: i32) -> Slab {
        if step >= 0 {
            Slab { entry: (lo - origin) as i64, exit: (hi - origin) as i64, speed: step as i64 }
        } else {
            Slab { entry: (origin - hi) as i64, exit: (origin - lo) as i64, speed: (-step) as i64 }
        }
    }

    /// Whether some parameter `t >= 0` meets this slab's condition.
    pub open spec fn reachable(self) -> bool {
        &&& self.exit >= 0
        &&& self.speed == 0 ==> self.entry <= 0
    }

    /// Whether the ray's point at parameter `num / den` lies between the two
    /// faces.
    spec fn admits(self, num: int, den: int) -> bool {
        self.entry * den <= num * self.speed <= self.exit * den
    }

    /// The parameter at which the ray comes between the two faces, as the
    /// fraction `0 / 1` where it cannot be behind them.
    spec fn start(self) -> (int, int) {
        if self.speed > 0 {
            (self.entry as int, self.speed as int)
        } else {
            (0, 1)
        }
    }

    /// Whether the ray enters this slab no later than it leaves `other`:
    /// `entry / speed <= other.exit / other.speed`, with the fractions cleared.
    pub open spec fn enters_before_leaving(self, other: Slab) -> bool {
        self.entry * other.speed <= other.exit * self.speed
    }

    fn new(origin: i32, step: i32, lo: i32, hi: i32) -> (s: Slab)
        ensures
            s == Slab::between(origin, step, lo, hi),
            0 <= s.speed <= 0x8000_0000,
            -0xFFFF_FFFF <= s.entry <= 0xFFFF_FFFF,
            -0xFFFF_FFFF <= s.exit <= 0xFFFF_FFFF,
    {
        if step >= 0 {
            Slab {
                entry: lo as i64 - origin as i64,
                exit: hi as i64 - origin as i64,
                speed: step as i64,
            }
        } else {
            Slab {
                entry: origin as i64 - hi as i64,
                exit: origin as i64 - lo as i64,
                speed: -(step as i64),
            }
        }
    }

    fn is_reachable(&self) -> (b: bool)
        ensures
            b == self.reachable(),
    {
        self.exit >= 0 && (self.speed != 0 || self.entry <= 0)
    }

    fn is_entered_before_leaving(&self, other: &Slab) -> (b: bool)
        requires
            0 <= self.speed <= 0x8000_0000,
            0 <= other.speed <= 0x8000_0000,
            -0xFFFF_FFFF <= self.entry <= 0xFFFF_FFFF,
            -0xFFFF_FFFF <= other.exit <= 0xFFFF_FFFF,
        ensures
            b == self.enters_before_leaving(*other),
    {
        proof {
            lemma_product_bound(self.entry as int, other.speed as int);
            lemma_product_bound(other.exit as int, self.speed as int);
        }
        let left: i128 = (self.entry as i128) * (other.speed as i128);
        let right: i128 = (other.exit as i128) * (self.speed as i128);
        left <= right
    }
}

proof fn lemma_product_bound(a: int, s: int)
    requires
        -0xFFFF_FFFF <= a <= 0xFFFF_FFFF,
        0 <= s <= 0x8000_0000,
    ensures
        -0xFFFF_FFFF * 0x8000_0000 <= a * s <= 0xFFFF_FFFF * 0x8000_0000,
{
    assert(-0xFFFF_FFFF * 0x8000_0000 <= a * s <= 0xFFFF_FFFF * 0x8000_0000) by (nonlinear_arith)
        requires
            -0xFFFF_FFFF <= a <= 0xFFFF_FFFF,
            0 <= s <= 0x8000_0000,
    ;
}

/// A half-line: the points `origin + t * direction` for every `t >= 0`, `t` not
/// restricted to whole numbers. A zero direction leaves a single point.
#[derive(Clone, Copy, Debug, PartialEq, Eq, Structural)]
pub struct Ray {
    pub origin: Point3,
    pub direction: Vector3,
}

impl Ray {
    /// The slab that `aabb` imposes on this ray along `axis`.
    pub open spec fn slab(&self, aabb: &AABB, axis: Axis) -> Slab {
        match axis {
            Axis::X => Slab::between(self.origin.x, self.direction.x, aabb.min.x, aabb.max.x),
            Axis::Y => Slab::between(self.origin.y, self.direction.y, aabb.min.y, aabb.max.y),
            Axis::Z => Slab::between(self.origin.z, self.direction.z, aabb.min.z, aabb.max.z),
        }
    }

    /// The slab test: the ray meets the box exactly when each of the three slabs
    /// can be reached at all, and each slab is entered no later than any slab is
    /// left.
    pub open spec fn spec_intersects_aabb(&self, aabb: &AABB) -> bool {
        let sx = self.slab(aabb, Axis::X);
        let sy = self.slab(aabb, Axis::Y);
        let sz = self.slab(aabb, Axis::Z);
        &&& sx.reachable() && sy.reachable() && sz.reachable()
        &&& sx.enters_before_leaving(sx) && sx.enters_before_leaving(sy)
            && sx.enters_before_leaving(sz)
        &&& sy.enters_before_leaving(sx) && sy.enters_before_leaving(sy)
            && sy.enters_before_leaving(sz)
        &&& sz.enters_before_leaving(sx) && sz.enters_before_leaving(sy)
            && sz.enters_before_leaving(sz)
    }

    /// Whether the ray's point at parameter `num / den` lies in `aabb`.
    pub open spec fn point_in(&self, num: int, den: int, aabb: &AABB) -> bool {
        &&& aabb.min.x * den <= self.origin.x * den + num * self.direction.x <= aabb.max.x * den
        &&& aabb.min.y * den <= self.origin.y * den + num * self.direction.y <= aabb.max.y * den
        &&& aabb.min.z * den <= self.origin.z * den + num * self.direction.z <= aabb.max.z * den
    }

    /// A ray from `origin` along `direction`. The direction is kept as given.
    pub fn new(origin: Point3, direction: Vector3) -> (r: Ray)
        ensures
            r == (Ray { origin, direction }),
    {
        Ray { origin, direction }
    }

    /// Decides whether the ray meets the box.
    #[verifier::when_used_as_spec(spec_intersects_aabb)]
    pub fn intersects_aabb(&self, aabb: &AABB) -> (hit: bool)
        ensures
            hit == self.spec_intersects_aabb(aabb),
    {
        let sx: Slab = Slab::new(self.origin.x, self.direction.x, aabb.min.x, aabb.max.x);
        let sy: Slab = Slab::new(self.origin.y, self.direction.y, aabb.min.y, aabb.max.y);
        let sz: Slab = Slab::new(self.origin.z, self.direction.z, aabb.min.z, aabb.max.z);
        sx.is_reachable() && sy.is_reachable() && sz.is_reachable()
            && sx.is_entered_before_leaving(&sx) && sx.is_entered_before_leaving(&sy)
            && sx.is_entered_before_leaving(&sz) && sy.is_entered_before_leaving(&sx)
            && sy.is_entered_before_leaving(&sy) && sy.is_entered_before_leaving(&sz)
            && sz.is_entered_before_leaving(&sx) && sz.is_entered_before_leaving(&sy)
            && sz.is_entered_before_leaving(&sz)
    }
}

/// Widening both slabs keeps one entered before the other is left.
proof fn lemma_widen_pair(a: Slab, b: Slab, wide_a: Slab, wide_b: Slab)
    requires
        a.enters_before_leaving(b),
        wide_a.entry <= a.entry,
        wide_a.speed == a.speed,
        a.speed >= 0,
        b.exit <= wide_b.exit,
        wide_b.speed == b.speed,
        b.speed >= 0,
    ensures
        wide_a.enters_before_leaving(wide_b),
{
    assert(wide_a.entry * b.speed <= a.entry * b.speed) by (nonlinear_arith)
        requires
            wide_a.entry <= a.entry,
            b.speed >= 0,
    ;
    assert(b.exit * a.speed <= wide_b.exit * a.speed) by (nonlinear_arith)
        requires
            b.exit <= wide_b.exit,
            a.speed >= 0,
    ;
}

/// A ray that meets a box meets every box that encloses it.
pub proof fn lemma_intersects_enclosing(ray: Ray, inner: AABB, outer: AABB)
    requires
        outer.spec_encloses(&inner),
        ray.spec_intersects_aabb(&inner),
    ensures
        ray.spec_intersects_aabb(&outer),
{
    let ix = ray.slab(&inner, Axis::X);
    let iy = ray.slab(&inner, Axis::Y);
    let iz = ray.slab(&inner, Axis::Z);
    let ox = ray.slab(&outer, Axis::X);
    let oy = ray.slab(&outer, Axis::Y);
    let oz = ray.slab(&outer, Axis::Z);
    lemma_widen_pair(ix, ix, ox, ox);
    lemma_widen_pair(ix, iy, ox, oy);
    lemma_widen_pair(ix, iz, ox, oz);
    lemma_widen_pair(iy, ix, oy, ox);
    lemma_widen_pair(iy, iy, oy, oy);
    lemma_widen_pair(iy, iz, oy, oz);
    lemma_widen_pair(iz, ix, oz, ox);
    lemma_widen_pair(iz, iy, oz, oy);
    lemma_widen_pair(iz, iz, oz, oz);
}

/// Whether the fraction `a` is at most the fraction `b`, both with positive
/// denominators.
spec fn at_most(a: (int, int), b: (int, int)) -> bool {
    a.0 * b.1 <= b.0 * a.1
}

/// The later of two parameters.
spec fn later(a: (int, int), b: (int, int)) -> (int, int) {
    if at_most(b, a) {
        a
    } else {
        b
    }
}

proof fn lemma_at_most_chain(a: (int, int), b: (int, int), c: (int, int))
    requires
        a.1 > 0,
        b.1 > 0,
        c.1 > 0,
        at_most(a, b),
        at_most(b, c),
    ensures
        at_most(a, c),
{
    assert((a.0 * b.1) * c.1 <= (b.0 * a.1) * c.1) by (nonlinear_arith)
        requires
            a.0 * b.1 <= b.0 * a.1,
            c.1 > 0,
    ;
    assert((b.0 * c.1) * a.1 <= (c.0 * b.1) * a.1) by (nonlinear_arith)
        requires
            b.0 * c.1 <= c.0 * b.1,
            a.1 > 0,
    ;
    assert((b.0 * a.1) * c.1 == (b.0 * c.1) * a.1) by (nonlinear_arith);
    assert((a.0 * b.1) * c.1 == (a.0 * c.1) * b.1) by (nonlinear_arith);
    assert((c.0 * b.1) * a.1 == (c.0 * a.1) * b.1) by (nonlinear_arith);
    assert(a.0 * c.1 <= c.0 * a.1) by (nonlinear_arith)
        requires
            (a.0 * c.1) * b.1 <= (c.0 * a.1) * b.1,
            b.1 > 0,
    ;
}

proof fn lemma_later_is_latest(a: (int, int), b: (int, int))
    requires
        a.1 > 0,
        b.1 > 0,
    ensures
        at_most(a, later(a, b)),
        at_most(b, later(a, b)),
        later(a, b) == a || later(a, b) == b,
        later(a, b).1 > 0,
{
    assert(a.0 * a.1 <= a.0 * a.1);
    assert(b.0 * b.1 <= b.0 * b.1);
}

/// Along one axis, a slab admits a parameter exactly when the ray's point at
/// that parameter lies between the two faces.
proof fn lemma_slab_admits(origin: i32, step: i32, lo: i32, hi: i32, num: int, den: int)
    ensures
        Slab::between(origin, step, lo, hi).admits(num, den) <==> lo * den <= origin * den + num
            * step <= hi * den,
{
    let s = Slab::between(origin, step, lo, hi);
    if step >= 0 {
        assert(s.entry == lo - origin && s.exit == hi - origin && s.speed == step);
        assert((lo - origin) * den == lo * den - origin * den) by (nonlinear_arith);
        assert((hi - origin) * den == hi * den - origin * den) by (nonlinear_arith);
    } else {
        assert(s.entry == origin - hi && s.exit == origin - lo && s.speed == -step);
        assert((origin - hi) * den == origin * den - hi * den) by (nonlinear_arith);
        assert((origin - lo) * den == origin * den - lo * den) by (nonlinear_arith);
        assert(num * (-step) == -(num * step)) by (nonlinear_arith);
    }
}

/// Two slabs that admit one parameter are compatible, and each is reachable.
proof fn lemma_admitting_slabs_agree(a: Slab, b: Slab, num: int, den: int)
    requires
        num >= 0,
        den > 0,
        a.speed >= 0,
        b.speed >= 0,
        a.admits(num, den),
        b.admits(num, den),
    ensures
        a.reachable(),
        a.enters_before_leaving(b),
{
    assert(num * a.speed >= 0) by (nonlinear_arith)
        requires
            num >= 0,
            a.speed >= 0,
    ;
    assert(a.exit >= 0) by (nonlinear_arith)
        requires
            a.exit * den >= 0,
            den > 0,
    ;
    if a.speed == 0 {
        assert(num * a.speed == 0);
        assert(a.entry <= 0) by (nonlinear_arith)
            requires
                a.entry * den <= 0,
                den > 0,
        ;
    }
    assert((a.entry * den) * b.speed <= (num * a.speed) * b.speed) by (nonlinear_arith)
        requires
            a.entry * den <= num * a.speed,
            b.speed >= 0,
    ;
    assert((num * b.speed) * a.speed <= (b.exit * den) * a.speed) by (nonlinear_arith)
        requires
            num * b.speed <= b.exit * den,
            a.speed >= 0,
    ;
    assert((num * a.speed) * b.speed == (num * b.speed) * a.speed) by (nonlinear_arith);
    assert((a.entry * den) * b.speed == (a.entry * b.speed) * den) by (nonlinear_arith);
    assert((b.exit * den) * a.speed == (b.exit * a.speed) * den) by (nonlinear_arith);
    assert(a.entry * b.speed <= b.exit * a.speed) by (nonlinear_arith)
        requires
            (a.entry * b.speed) * den <= (b.exit * a.speed) * den,
            den > 0,
    ;
}

/// A slab admits the start of `from`, once that start is no earlier than its
/// own and no earlier than zero.
proof fn lemma_slab_admits_start(s: Slab, from: Slab, at: (int, int))
    requires
        s.speed >= 0,
        from.speed >= 0,
        s.reachable(),
        from.enters_before_leaving(s),
        at == from.start(),
        at_most(s.start(), at),
        at_most((0, 1), at),
    ensures
        s.admits(at.0, at.1),
{
    if s.speed == 0 {
        assert(at.0 * s.speed == 0) by (nonlinear_arith)
            requires
                s.speed == 0,
        ;
        assert(s.entry * at.1 <= 0) by (nonlinear_arith)
            requires
                s.entry <= 0,
                at.1 > 0,
        ;
        assert(s.exit * at.1 >= 0) by (nonlinear_arith)
            requires
                s.exit >= 0,
                at.1 > 0,
        ;
    } else {
        if from.speed > 0 {
        } else {
            assert(at.0 * s.speed == 0);
        }
    }
}

/// The slab test decides what it is meant to decide: the ray meets the box
/// exactly when its point at some parameter `num / den`, not negative, lies
/// in the box.
pub proof fn lemma_intersects_iff_some_point_inside(ray: Ray, aabb: AABB)
    ensures
        ray.spec_intersects_aabb(&aabb) <==> exists|num: int, den: int|
            num >= 0 && den > 0 && ray.point_in(num, den, &aabb),
{
    let sx = ray.slab(&aabb, Axis::X);
    let sy = ray.slab(&aabb, Axis::Y);
    let sz = ray.slab(&aabb, Axis::Z);
    assert forall|num: int, den: int|
        ray.point_in(num, den, &aabb) <==> sx.admits(num, den) && sy.admits(num, den) && sz.admits(
            num,
            den,
        ) by {
        lemma_slab_admits(ray.origin.x, ray.direction.x, aabb.min.x, aabb.max.x, num, den);
        lemma_slab_admits(ray.origin.y, ray.direction.y, aabb.min.y, aabb.max.y, num, den);
        lemma_slab_admits(ray.origin.z, ray.direction.z, aabb.min.z, aabb.max.z, num, den);
    }
    if exists|num: int, den: int| num >= 0 && den > 0 && ray.point_in(num, den, &aabb) {
        let (num, den) = choose|num: int, den: int|
            num >= 0 && den > 0 && ray.point_in(num, den, &aabb);
        lemma_admitting_slabs_agree(sx, sx, num, den);
        lemma_admitting_slabs_agree(sx, sy, num, den);
        lemma_admitting_slabs_agree(sx, sz, num, den);
        lemma_admitting_slabs_agree(sy, sx, num, den);
        lemma_admitting_slabs_agree(sy, sy, num, den);
        lemma_admitting_slabs_agree(sy, sz, num, den);
        lemma_admitting_slabs_agree(sz, sx, num, den);
        lemma_admitting_slabs_agree(sz, sy, num, den);
        lemma_admitting_slabs_agree(sz, sz, num, den);
    }
    if ray.spec_intersects_aabb(&aabb) {
        let zero = (0int, 1int);
        let first = later(zero, sx.start());
        let second = later(first, sy.start());
        let at = later(second, sz.start());
        lemma_later_is_latest(zero, sx.start());
        lemma_later_is_latest(first, sy.start());
        lemma_later_is_latest(second, sz.start());
        lemma_at_most_chain(zero, first, second);
        lemma_at_most_chain(zero, second, at);
        lemma_at_most_chain(sx.start(), first, second);
        lemma_at_most_chain(sx.start(), second, at);
        lemma_at_most_chain(sy.start(), second, at);
        let still = Slab { entry: 0, exit: 0, speed: 0 };
        let from = if at == sx.start() {
            sx
        } else if at == sy.start() {
            sy
        } else if at == sz.start() {
            sz
        } else {
            still
        };
        assert(at == from.start());
        assert(still.enters_before_leaving(sx) && still.enters_before_leaving(sy)
            && still.enters_before_leaving(sz));
        lemma_slab_admits_start(sx, from, at);
        lemma_slab_admits_start(sy, from, at);
        lemma_slab_admits_start(sz, from, at);
        assert(at.0 >= 0);
        assert(ray.point_in(at.0, at.1, &aabb));
    }
}

} // verus!
