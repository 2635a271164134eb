use vstd::prelude::*;
use crate::inter::{OTHER_A, OTHER_B, OTHER_MASK, SELF_A, SELF_B, SELF_MASK};

verus! {

/// Where a line parameter falls relative to the segment it runs along:
/// before its start (`< 0`), at its start (`0`), strictly inside, at its
/// end (`1`), or past its end (`> 1`).
#[derive(Copy, Clone, Debug, PartialEq, Eq, Structural)]
pub enum Param {
    Before,
    Start,
    Within,
    End,
    After,
}

impl Param {
    /// The parameter lies on the segment, ends included.
    pub open spec fn on_segment(self) -> bool {
        self == Param::Start || self == Param::Within || self == Param::End
    }

    /// The parameter lies on the segment, ends included.
    pub fn is_on_segment(&self) -> (r: bool)
        ensures
            r == self.on_segment(),
    {
        match self {
            Param::Before => false,
            Param::After => false,
            _ => true,
        }
    }
}

/// How the lines through two segments lie to each other.
///
/// Parallel lines are `collinear` when they are one and the same line.
/// Lines that cross do so at one point, which has the parameter `ua` along
/// the first segment and `ub` along the second.
#[derive(Copy, Clone, Debug, PartialEq, Eq, Structural)]
pub enum Solve {
    Parallel { collinear: bool },
    Crossing { ua: Param, ub: Param },
}

impl Solve {
    /// The same pair of lines seen from the other segment.
    pub open spec fn swapped(self) -> Solve {
        match self {
            Solve::Parallel { collinear } => Solve::Parallel { collinear },
            Solve::Crossing { ua, ub } => Solve::Crossing { ua: ub, ub: ua },
        }
    }
}

/// Whether two segments meet.
///
/// Segments on crossing lines meet when the crossing point lies on both.
/// Segments on one line meet when their bounding boxes do; segments on
/// distinct parallel lines never meet.
pub open spec fn segments_meet(solve: Solve, boxes_overlap: bool) -> bool {
    match solve {
        Solve::Parallel { collinear } => collinear && boxes_overlap,
        Solve::Crossing { ua, ub } => ua.on_segment() && ub.on_segment(),
    }
}

/// Decides whether two segments intersect, from the solve of their lines
/// and from whether their bounding boxes overlap.
pub fn intersects(solve: Solve, boxes_overlap: bool) -> (r: bool)
    ensures
        r == segments_meet(solve, boxes_overlap),
{
    match solve {
        Solve::Parallel { collinear } => {
            let mut bln = false;
            if collinear {
                bln = boxes_overlap;
            }
            bln
        },
        Solve::Crossing { ua, ub } => ua.is_on_segment() && ub.is_on_segment(),
    }
}

/// The endpoint of the first segment that a parameter along it names.
pub open spec fn self_bits(ua: Param) -> u8 {
    match ua {
        Param::Start => SELF_A,
        Param::End => SELF_B,
        _ => 0,
    }
}

/// The endpoint of the second segment that a parameter along it names.
pub open spec fn other_bits(ub: Param) -> u8 {
    match ub {
        Param::Start => OTHER_A,
        Param::End => OTHER_B,
        _ => 0,
    }
}

/// The relation mask of a crossing point: the endpoints of the two
/// segments that it coincides with.
pub open spec fn crossing_relation(ua: Param, ub: Param) -> u8 {
    self_bits(ua) | other_bits(ub)
}

/// The relation mask of the point at parameter `ua` along the first
/// segment and `ub` along the second.
pub fn inter_relation(ua: Param, ub: Param) -> (r: u8)
    ensures
        r == crossing_relation(ua, ub),
{
    let mut sa: u8 = 0;
    let mut sb: u8 = 0;
    let mut oa: u8 = 0;
    let mut ob: u8 = 0;

    match ua {
        Param::Start => {
            sa = SELF_A;
        },
        Param::End => {
            sb = SELF_B;
        },
        _ => {},
    }
    match ub {
        Param::Start => {
            oa = OTHER_A;
        },
        Param::End => {
            ob = OTHER_B;
        },
        _ => {},
    }
    let r = sa | sb | oa | ob;
    assert(r == crossing_relation(ua, ub)) by {
        assert(forall|x: u8| #[trigger] (x | 0) == x) by (bit_vector);
        assert(forall|x: u8| #[trigger] (0 | x) == x) by (bit_vector);
        assert(forall|x: u8, y: u8| #[trigger] ((0 | x) | y) == x | y) by (bit_vector);
        assert(forall|x: u8, y: u8| #[trigger] ((x | 0) | y) == x | y) by (bit_vector);
        assert(forall|x: u8, y: u8| #[trigger] ((x | y) | 0) == x | y) by (bit_vector);
        assert(forall|x: u8, y: u8, z: u8| #[trigger] ((x | y) | z) == x | (y | z)) by (bit_vector);
    }
    r
}

/// What has to be measured to get the distance between two segments.
#[derive(Copy, Clone, Debug, PartialEq, Eq, Structural)]
pub enum DistancePlan {
    /// The segments cross: the distance is zero.
    Zero,
    /// Both segments are single points: measure from the first segment's
    /// start to the second segment's end.
    Points,
    /// Drop each endpoint named in the mask `ends` onto the opposite
    /// segment and take the shortest of these distances.
    Project { ends: u8 },
}

/// The endpoint of the first segment beyond which a parameter falls.
pub open spec fn self_overshoot(ua: Param) -> u8 {
    match ua {
        Param::Before => SELF_A,
        Param::After => SELF_B,
        _ => 0,
    }
}

/// The endpoint of the second segment beyond which a parameter falls.
pub open spec fn other_overshoot(ub: Param) -> u8 {
    match ub {
        Param::Before => OTHER_A,
        Param::After => OTHER_B,
        _ => 0,
    }
}

/// The plan for the distance between two segments.
///
/// On parallel lines: between two points, measure point to point; with one
/// segment a point, drop that point onto the other segment; otherwise drop
/// all four endpoints.  On crossing lines: the distance is zero when the
/// crossing point lies on both segments; otherwise each segment whose
/// parameter overshoots contributes the endpoint it overshoots.
pub open spec fn plan_of(solve: Solve, self_is_point: bool, other_is_point: bool) -> DistancePlan {
    match solve {
        Solve::Parallel { .. } => {
            if self_is_point && other_is_point {
                DistancePlan::Points
            } else if self_is_point {
                DistancePlan::Project { ends: SELF_A }
            } else if other_is_point {
                DistancePlan::Project { ends: OTHER_A }
            } else {
                DistancePlan::Project { ends: SELF_A | SELF_B | OTHER_A | OTHER_B }
            }
        },
        Solve::Crossing { ua, ub } => {
            if ua.on_segment() && ub.on_segment() {
                DistancePlan::Zero
            } else {
                DistancePlan::Project { ends: self_overshoot(ua) | other_overshoot(ub) }
            }
        },
    }
}

/// Plans the measurement of the distance between two segments, from the
/// solve of their lines and from whether either segment is a single point.
pub fn seg_seg_distance(solve: Solve, self_is_point: bool, other_is_point: bool) -> (plan:
    DistancePlan)
    ensures
        plan == plan_of(solve, self_is_point, other_is_point),
{
    match solve {
        Solve::Parallel { .. } => {
            if self_is_point && other_is_point {
                DistancePlan::Points
            } else if self_is_point || other_is_point {
                let pta = if self_is_point {
                    SELF_A
                } else {
                    OTHER_A
                };
                DistancePlan::Project { ends: pta }
            } else {
                DistancePlan::Project { ends: SELF_A | SELF_B | OTHER_A | OTHER_B }
            }
        },
        Solve::Crossing { ua, ub } => {
            let mut pta: u8 = 0;
            let mut ptb: u8 = 0;
            if !ua.is_on_segment() || !ub.is_on_segment() {
                match ua {
                    Param::Before => {
                        pta = SELF_A;
                    },
                    Param::After => {
                        pta = SELF_B;
                    },
                    _ => {},
                }
                match ub {
                    Param::Before => {
                        ptb = OTHER_A;
                    },
                    Param::After => {
                        ptb = OTHER_B;
                    },
                    _ => {},
                }
                DistancePlan::Project { ends: pta | ptb }
            } else {
                DistancePlan::Zero
            }
        },
    }
}

/// The part of a segment that lies closest to a point.
#[derive(Copy, Clone, Debug, PartialEq, Eq, Structural)]
pub enum Closest {
    /// The segment's first endpoint.
    Start,
    /// The segment's second endpoint.
    End,
    /// The foot of the perpendicular from the point, inside the segment.
    Foot,
}

/// The part of a segment closest to a point whose projection onto the
/// segment's line has the parameter `u`.  A segment of no length is its
/// first endpoint.
pub open spec fn closest_part(degenerate: bool, u: Param) -> Closest {
    if degenerate || u == Param::Before {
        Closest::Start
    } else if u == Param::After {
        Closest::End
    } else {
        Closest::Foot
    }
}

/// Decides which part of a segment a point is measured against.
pub fn dist_to_point(degenerate: bool, u: Param) -> (c: Closest)
    ensures
        c == closest_part(degenerate, u),
{
    if degenerate {
        Closest::Start
    } else {
        match u {
            Param::Before => Closest::Start,
            Param::After => Closest::End,
            _ => Closest::Foot,
        }
    }
}

/// A relation mask seen from the other segment: the bits of the two
/// segments change places.
pub open spec fn mirrored(inter: u8) -> u8 {
    ((inter & SELF_MASK) >> 2) | ((inter & OTHER_MASK) << 2)
}

/// Whether two segments meet does not depend on which of them is taken
/// first.
pub proof fn lemma_meet_symmetric(solve: Solve, boxes_overlap: bool)
    ensures
        segments_meet(solve.swapped(), boxes_overlap) == segments_meet(solve, boxes_overlap),
{
}

/// Taking the segments in the other order mirrors the relation mask of
/// their crossing point.
pub proof fn lemma_relation_mirrored(ua: Param, ub: Param)
    ensures
        crossing_relation(ub, ua) == mirrored(crossing_relation(ua, ub)),
{
    let m = crossing_relation(ua, ub);
    let w = crossing_relation(ub, ua);
    assert(w == ((m & 0b1100) >> 2) | ((m & 0b0011) << 2)) by (bit_vector)
        requires
            (m == 0b1000u8 | 0b0010u8 && w == 0b1000u8 | 0b0010u8) || (m == 0b1000u8 | 0b0001u8 && w
                == 0b0100u8 | 0b0010u8) || (m == 0b1000u8 | 0u8 && w == 0u8 | 0b0010u8) || (m
                == 0b0100u8 | 0b0010u8 && w == 0b1000u8 | 0b0001u8) || (m == 0b0100u8 | 0b0001u8 && w
                == 0b0100u8 | 0b0001u8) || (m == 0b0100u8 | 0u8 && w == 0u8 | 0b0001u8) || (m == 0u8
                | 0b0010u8 && w == 0b1000u8 | 0u8) || (m == 0u8 | 0b0001u8 && w == 0b0100u8 | 0u8)
                || (m == 0u8 | 0u8 && w == 0u8 | 0u8),
    ;
}

/// The relation mask of a crossing point names an endpoint of a segment
/// exactly when the point's parameter along that segment is that end.
pub proof fn lemma_relation_names_ends(ua: Param, ub: Param)
    ensures
        crossing_relation(ua, ub) & SELF_A != 0 <==> ua == Param::Start,
        crossing_relation(ua, ub) & SELF_B != 0 <==> ua == Param::End,
        crossing_relation(ua, ub) & OTHER_A != 0 <==> ub == Param::Start,
        crossing_relation(ua, ub) & OTHER_B != 0 <==> ub == Param::End,
        crossing_relation(ua, ub) & !(SELF_MASK | OTHER_MASK) == 0,
{
    let s = self_bits(ua);
    let o = other_bits(ub);
    assert((s == 8 || s == 4 || s == 0) && (o == 2 || o == 1 || o == 0));
    assert(((s | o) & 8 != 0 <==> s == 8) && ((s | o) & 4 != 0 <==> s == 4) && ((s | o) & 2 != 0 <==> o
        == 2) && ((s | o) & 1 != 0 <==> o == 1) && (s | o) & !(12u8 | 3u8) == 0) by (bit_vector)
        requires
            (s == 8u8 || s == 4u8 || s == 0u8) && (o == 2u8 || o == 1u8 || o == 0u8),
    ;
}

/// For segments on crossing lines, the distance is planned as zero exactly
/// when the segments meet.
pub proof fn lemma_crossing_meet_iff_zero(
    ua: Param,
    ub: Param,
    boxes_overlap: bool,
    self_is_point: bool,
    other_is_point: bool,
)
    ensures
        segments_meet(Solve::Crossing { ua, ub }, boxes_overlap) <==> plan_of(
            Solve::Crossing { ua, ub },
            self_is_point,
            other_is_point,
        ) == DistancePlan::Zero,
{
}

/// A plan that is not zero always names something to measure.
pub proof fn lemma_plan_names_an_end(solve: Solve, self_is_point: bool, other_is_point: bool)
    ensures
        match plan_of(solve, self_is_point, other_is_point) {
            DistancePlan::Project { ends } => ends != 0 && ends & !(SELF_MASK | OTHER_MASK) == 0,
            _ => true,
        },
{
    match plan_of(solve, self_is_point, other_is_point) {
        DistancePlan::Project { ends } => {
            match solve {
                Solve::Parallel { .. } => {
                    assert((8u8 | 4u8 | 2u8 | 1u8) != 0 && (8u8 | 4u8 | 2u8 | 1u8) & !(12u8 | 3u8) == 0
                        && 8u8 & !(12u8 | 3u8) == 0 && 2u8 & !(12u8 | 3u8) == 0) by (bit_vector);
                },
                Solve::Crossing { ua, ub } => {
                    let s = self_overshoot(ua);
                    let o = other_overshoot(ub);
                    assert(s != 0 || o != 0);
                    assert((s | o) != 0 && (s | o) & !(12u8 | 3u8) == 0) by (bit_vector)
                        requires
                            (s == 8u8 || s == 4u8 || s == 0u8) && (o == 2u8 || o == 1u8 || o == 0u8),
                            s != 0 || o != 0,
                    ;
                },
            }
        },
        _ => {},
    }
}

} // verus!
