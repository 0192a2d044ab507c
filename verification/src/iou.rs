//! How much two boxes overlap.
use vstd::prelude::*;
use crate::reading::{higher_of, larger, lower_of, smaller, Level};
use crate::types::Extent;

verus! {

/// The areas of two boxes: that of their union, and that of their intersection as a share
/// of it. The share only means something where the boxes overlap and their union is not
/// empty.
#[derive(Debug, Clone, Copy, PartialEq, Eq, Structural)]
pub struct AreaShare {
    pub union: Level,
    pub ratio: Level,
}

/// The boxes have inner points in common.
pub open spec fn boxes_overlap(a: Extent, b: Extent) -> bool {
    &&& smaller(a.right, b.right) > larger(a.left, b.left)
    &&& smaller(a.bottom, b.bottom) > larger(a.top, b.top)
}

/// The overlap of two boxes: the share where they overlap and their union is not empty,
/// and 0 elsewhere.
pub open spec fn overlap(a: Extent, b: Extent, m: AreaShare) -> Level {
    if boxes_overlap(a, b) && m.union > 0 {
        m.ratio
    } else {
        0
    }
}

/// Whether the boxes have inner points in common.
pub fn overlapping(a: &Extent, b: &Extent) -> (found: bool)
    ensures
        found == boxes_overlap(*a, *b),
{
    lower_of(a.right, b.right) > higher_of(a.left, b.left) && lower_of(a.bottom, b.bottom)
        > higher_of(a.top, b.top)
}

/// The overlap of two boxes.
pub fn box_iou(a: &Extent, b: &Extent, m: &AreaShare) -> (iou: Level)
    ensures
        iou == overlap(*a, *b, *m),
{
    if !overlapping(a, b) {
        return 0;
    }
    if m.union > 0 {
        m.ratio
    } else {
        0
    }
}

/// It does not matter which box comes first.
pub proof fn law_overlap_is_symmetric(a: Extent, b: Extent, m: AreaShare)
    ensures
        overlap(a, b, m) == overlap(b, a, m),
{
}

/// Boxes that only touch, or one without a width or a height, do not overlap.
pub proof fn law_touching_is_no_overlap(a: Extent, b: Extent, m: AreaShare)
    requires
        a.right <= b.left || b.right <= a.left || a.bottom <= b.top || b.bottom <= a.top || a.right
            <= a.left || a.bottom <= a.top,
    ensures
        overlap(a, b, m) == 0,
{
}

/// Of a share that is not negative, as every share of two areas is, the overlap is not
/// negative either, and it is that share or 0.
pub proof fn law_overlap_is_not_negative(a: Extent, b: Extent, m: AreaShare)
    requires
        m.ratio >= 0,
    ensures
        overlap(a, b, m) >= 0,
        overlap(a, b, m) == m.ratio || overlap(a, b, m) == 0,
        !boxes_overlap(a, b) ==> overlap(a, b, m) == 0,
{
}

/// Boxes with inner points in common overlap by the share of their union that is common to
/// them: each begins before the other ends, along both axes, and neither is empty.
pub proof fn law_common_points_give_the_share(a: Extent, b: Extent, m: AreaShare)
    requires
        m.union > 0,
        a.left < a.right && b.left < b.right && a.left < b.right && b.left < a.right,
        a.top < a.bottom && b.top < b.bottom && a.top < b.bottom && b.top < a.bottom,
    ensures
        overlap(a, b, m) == m.ratio,
{
}

/// Without an area of their union two boxes do not overlap.
pub proof fn law_no_area_is_no_overlap(a: Extent, b: Extent, m: AreaShare)
    requires
        m.union <= 0,
    ensures
        overlap(a, b, m) == 0,
{
}

/// Whether boxes have inner points in common does not depend on what is measured of them,
/// and a box that is not empty has points in common with itself.
pub proof fn law_a_box_meets_itself(a: Extent, b: Extent)
    ensures
        boxes_overlap(a, b) == boxes_overlap(b, a),
        a.left < a.right && a.top < a.bottom <==> boxes_overlap(a, a),
{
}

} // verus!
