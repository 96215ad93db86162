//! Exact costs of candidate splits under the surface area heuristic.

use vstd::prelude::*;
use crate::aabb::{lemma_surface_area_bound, AABB};

verus! {

/// The weight of a split: each side's surface area, counted once per shape on
/// that side.
pub open spec fn split_weight(left_count: nat, left: AABB, right_count: nat, right: AABB) -> nat {
    left_count * left.spec_surface_area() + right_count * right.spec_surface_area()
}

/// Whether the cost `weight / area` is strictly less than `other_weight / area`,
/// both taken as exact fractions. Over a zero area no cost is less than another.
pub open spec fn costs_less(weight: nat, other_weight: nat, area: nat) -> bool {
    weight * area < other_weight * area
}

/// The weight of a split, held exactly. It can exceed 128 bits, so it is kept
/// as two limbs to the base `2^64`.
pub struct SplitCost {
    high: u128,
    low: u128,
}

impl View for SplitCost {
    type V = nat;

    closed spec fn view(&self) -> nat {
        (self.high * 0x1_0000_0000_0000_0000 + self.low) as nat
    }
}

impl SplitCost {
    #[verifier::type_invariant]
    spec fn low_is_a_limb(self) -> bool {
        self.low < 0x1_0000_0000_0000_0000
    }

    /// `count * area` as two limbs, the high one below `6 * 2^64`.
    fn weighted(count: usize, area: u128) -> (w: (u128, u128))
        requires
            area <= 6 * 0xFFFF_FFFE_0000_0001,
        ensures
            w.0 * 0x1_0000_0000_0000_0000 + w.1 == count * area,
            w.0 < 6 * 0x1_0000_0000_0000_0000,
            w.1 < 0x1_0000_0000_0000_0000,
    {
        let n: u128 = count as u128;
        let area_low: u128 = area % 0x1_0000_0000_0000_0000;
        let area_high: u128 = area / 0x1_0000_0000_0000_0000;
        assert(n * area_low <= 0xFFFF_FFFF_FFFF_FFFF * 0xFFFF_FFFF_FFFF_FFFF) by (nonlinear_arith)
            requires
                n <= 0xFFFF_FFFF_FFFF_FFFF,
                area_low <= 0xFFFF_FFFF_FFFF_FFFF,
        ;
        assert(n * area_high <= 0xFFFF_FFFF_FFFF_FFFF * 5) by (nonlinear_arith)
            requires
                n <= 0xFFFF_FFFF_FFFF_FFFF,
                area_high <= 5,
        ;
        let product: u128 = n * area_low;
        let high: u128 = n * area_high + product / 0x1_0000_0000_0000_0000;
        let low: u128 = product % 0x1_0000_0000_0000_0000;
        assert(n * area == (n * area_high) * 0x1_0000_0000_0000_0000 + n * area_low)
            by (nonlinear_arith)
            requires
                area == area_high * 0x1_0000_0000_0000_0000 + area_low,
        ;
        (high, low)
    }

    /// The exact weight of the split that puts `left_count` shapes into `left`
    /// and `right_count` shapes into `right`.
    pub fn of_split(left_count: usize, left: &AABB, right_count: usize, right: &AABB) -> (c:
        SplitCost)
        ensures
            c@ == split_weight(left_count as nat, *left, right_count as nat, *right),
    {
        proof {
            lemma_surface_area_bound(*left);
            lemma_surface_area_bound(*right);
        }
        let l: (u128, u128) = SplitCost::weighted(left_count, left.surface_area());
        let r: (u128, u128) = SplitCost::weighted(right_count, right.surface_area());
        let low_sum: u128 = l.1 + r.1;
        SplitCost {
            high: l.0 + r.0 + low_sum / 0x1_0000_0000_0000_0000,
            low: low_sum % 0x1_0000_0000_0000_0000,
        }
    }

    /// Compares two weights.
    pub fn less_than(&self, other: &SplitCost) -> (b: bool)
        ensures
            b == (self@ < other@),
    {
        proof {
            use_type_invariant(self);
            use_type_invariant(other);
        }
        self.high < other.high || (self.high == other.high && self.low < other.low)
    }
}

} // verus!
