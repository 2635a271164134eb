use vstd::prelude::*;
use crate::query::{accepts, describes, Test};
use crate::util::Sign;

verus! {

/// What a ray cast reads off one edge of a ring for a query point.
///
/// The ray leaves the query point in the positive x direction.  The edge
/// runs from its tail vertex to its head vertex.
#[derive(Copy, Clone, Debug, PartialEq, Eq, Structural)]
pub struct EdgeCast {
    /// The head vertex lies strictly above the query point.
    pub head_above: bool,
    /// The tail vertex lies strictly above the query point.
    pub tail_above: bool,
    /// Sign of the signed area spanned by the head and the tail, both taken
    /// relative to the query point.
    pub area: Sign,
    /// Sign of the tail's height minus the head's height.
    pub rise: Sign,
}

impl EdgeCast {
    /// Exactly one end of the edge lies strictly above the ray.
    pub open spec fn straddles(self) -> bool {
        self.head_above != self.tail_above
    }

    /// The edge meets the ray's line at a strictly positive distance from
    /// the query point: the area divided by the rise is positive.
    pub open spec fn positive_intercept(self) -> bool {
        (self.area == Sign::Pos && self.rise == Sign::Pos) || (self.area == Sign::Neg && self.rise
            == Sign::Neg)
    }

    /// The ray crosses the edge.
    pub open spec fn crosses(self) -> bool {
        self.straddles() && self.positive_intercept()
    }

    /// The same edge in a ring that runs the other way round.
    pub open spec fn reversed(self) -> EdgeCast {
        EdgeCast {
            head_above: self.tail_above,
            tail_above: self.head_above,
            area: self.area.flipped(),
            rise: self.rise.flipped(),
        }
    }

    /// Whether the ray crosses the edge.
    pub fn is_crossed(&self) -> (r: bool)
        ensures
            r == self.crosses(),
    {
        if (self.head_above && !self.tail_above) || (self.tail_above && !self.head_above) {
            match (self.area, self.rise) {
                (Sign::Pos, Sign::Pos) => true,
                (Sign::Neg, Sign::Neg) => true,
                _ => false,
            }
        } else {
            false
        }
    }
}

/// Number of edges that the ray crosses.
pub open spec fn crossings(edges: Seq<EdgeCast>) -> nat
    decreases edges.len(),
{
    if edges.len() == 0 {
        0
    } else {
        crossings(edges.drop_last()) + if edges.last().crosses() {
            1nat
        } else {
            0nat
        }
    }
}

/// Tests whether a point lies inside a ring, by the crossing number of a
/// ray from the point: the point is inside when the ray crosses an odd
/// number of the ring's edges.  `edges` holds what the cast reads off each
/// edge of the ring.
pub fn completely_in_ring(edges: &Vec<EdgeCast>) -> (inside: bool)
    ensures
        inside == (crossings(edges@) % 2 == 1),
{
    let mut odd = false;
    let mut i: usize = 0;
    while i < edges.len()
        invariant
            i <= edges.len(),
            odd == (crossings(edges@.take(i as int)) % 2 == 1),
        decreases edges.len() - i,
    {
        assert(edges@.take(i + 1).drop_last() =~= edges@.take(i as int));
        if edges[i].is_crossed() {
            odd = !odd;
        }
        i += 1;
    }
    assert(edges@.take(edges.len() as int) =~= edges@);
    odd
}

/// The ring run the other way round: the edges in reverse order, each
/// reversed.
pub open spec fn reversed_ring(edges: Seq<EdgeCast>) -> Seq<EdgeCast> {
    Seq::new(edges.len(), |k: int| edges[edges.len() - 1 - k].reversed())
}

/// Adding an edge in front adds its crossing to the count.
proof fn lemma_crossings_front(first: EdgeCast, rest: Seq<EdgeCast>)
    ensures
        crossings(seq![first] + rest) == crossings(rest) + if first.crosses() {
            1nat
        } else {
            0nat
        },
    decreases rest.len(),
{
    let all = seq![first] + rest;
    if rest.len() == 0 {
        assert(all.drop_last() =~= Seq::empty());
        assert(crossings(all.drop_last()) == 0);
    } else {
        assert(all.drop_last() =~= seq![first] + rest.drop_last());
        assert(all.last() == rest.last());
        lemma_crossings_front(first, rest.drop_last());
    }
}

/// The direction in which a ring runs does not change the number of
/// crossings, so it does not change which points are inside.
pub proof fn lemma_crossings_orientation_free(edges: Seq<EdgeCast>)
    ensures
        crossings(reversed_ring(edges)) == crossings(edges),
    decreases edges.len(),
{
    if edges.len() > 0 {
        let rest = edges.drop_last();
        lemma_crossings_orientation_free(rest);
        assert(reversed_ring(edges) =~= seq![edges.last().reversed()] + reversed_ring(rest));
        lemma_crossings_front(edges.last().reversed(), reversed_ring(rest));
    } else {
        assert(reversed_ring(edges) =~= Seq::empty());
    }
}

/// Tests whether a ring contains a line of `n_vertices` vertices.
///
/// `disjoint` tells whether the bounding boxes of the ring and of the line
/// are disjoint, and `contains_point(v)` whether the ring contains vertex
/// `v` of the line.  The ring contains the line when the boxes meet and
/// the ring contains every vertex; the vertices are asked about in order,
/// up to the first that lies outside.
pub fn contains_line<F: Fn(usize) -> bool>(disjoint: bool, n_vertices: usize, contains_point: &F) -> (bln: bool)
    requires
        accepts(*contains_point, n_vertices as nat),
    ensures
        forall|p: Test| #[trigger]
            describes(p, *contains_point, n_vertices as nat) ==> bln == (!disjoint && forall|v: usize|
                v < n_vertices ==> #[trigger] p(v)),
{
    if disjoint {
        return false;
    }
    let mut bln = true;
    let mut i: usize = 0;
    while bln && i < n_vertices
        invariant
            i <= n_vertices,
            accepts(*contains_point, n_vertices as nat),
            forall|p: Test| #[trigger]
                describes(p, *contains_point, n_vertices as nat) ==> (bln ==> forall|v: usize|
                    v < i ==> #[trigger] p(v)) && (!bln ==> exists|v: usize| v < n_vertices && !#[trigger] p(v)),
        decreases n_vertices - i,
    {
        bln = contains_point(i);
        proof {
            assert(call_ensures(*contains_point, (i,), bln));
            assert forall|p: Test| #[trigger] describes(p, *contains_point, n_vertices as nat) implies p(i)
                == bln by {}
        }
        i += 1;
    }
    bln
}

} // verus!
