//! Combinatorial kernel of a planar geometry engine.
//!
//! Every routine here works on vertex indices, direction signs, relation
//! masks and truth values: the decomposition of a coordinate sequence into
//! monotone chains, the decision tables of segment intersection and
//! distance, the folding of coincident intersection points, the
//! crossing-number test of a ring, the relate of a line with the rings of a
//! polygon, the pruned search over pairs of chains, and the scan that builds
//! a convex hull.
//!
//! The numeric predicates that feed them (orientation tests, epsilon
//! comparisons, bounding-box tests) are evaluated by the caller on its
//! coordinates and handed in as plain values or as test functions.

use vstd::prelude::*;

pub mod chull;
pub mod distance;
pub mod inter;
pub mod line;
pub mod mono;
pub mod query;
pub mod ring;
pub mod segment;
pub mod util;

verus! {

/// The kind of a geometry.
#[derive(Copy, Clone, Debug, PartialEq, Eq, Structural)]
pub enum GeomType {
    Point,
    Segment,
    LineString,
    Polygon,
    Unknown,
}

impl GeomType {
    /// Whether this is the kind of a point.
    pub fn is_point(&self) -> (r: bool)
        ensures
            r == (*self == GeomType::Point),
    {
        match self {
            GeomType::Point => true,
            _ => false,
        }
    }

    /// Whether this is the kind of a line string.
    pub fn is_line_string(&self) -> (r: bool)
        ensures
            r == (*self == GeomType::LineString),
    {
        match self {
            GeomType::LineString => true,
            _ => false,
        }
    }

    /// Whether this is the kind of a segment.
    pub fn is_segment(&self) -> (r: bool)
        ensures
            r == (*self == GeomType::Segment),
    {
        match self {
            GeomType::Segment => true,
            _ => false,
        }
    }

    /// Whether this is the kind of a polygon.
    pub fn is_polygon(&self) -> (r: bool)
        ensures
            r == (*self == GeomType::Polygon),
    {
        match self {
            GeomType::Polygon => true,
            _ => false,
        }
    }

    /// The printed name of each kind.  A segment has no name of its own and
    /// prints like an unknown geometry.
    pub open spec fn spec_name(self) -> Seq<char> {
        match self {
            GeomType::Point => "Point"@,
            GeomType::LineString => "LineString"@,
            GeomType::Polygon => "Polygon"@,
            _ => "Unknown"@,
        }
    }

    /// The name under which this kind is printed.
    pub fn name(&self) -> (r: String)
        ensures
            r@ == self.spec_name(),
    {
        match self {
            GeomType::Point => "Point".to_owned(),
            GeomType::LineString => "LineString".to_owned(),
            GeomType::Polygon => "Polygon".to_owned(),
            _ => "Unknown".to_owned(),
        }
    }
}

} // verus!
