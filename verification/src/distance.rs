use vstd::prelude::*;

verus! {

/// Lines with fewer coordinates than this are measured edge by edge.
pub const BRUTE_FORCE_SIZE: usize = 16;

/// How the distance between two lines is searched for.
#[derive(Copy, Clone, Debug, PartialEq, Eq, Structural)]
pub enum Search {
    /// Measure every edge of one line against every edge of the other.
    BruteForce,
    /// Index the edges of the longer line and query it with the edges of
    /// the shorter one.  `query_is_self` tells that the first line is the
    /// one to query with.
    Indexed { query_is_self: bool },
}

/// The search for the distance between a line of `n_self` coordinates and
/// a line of `n_other` coordinates: edge by edge when both are short,
/// otherwise by an index over the longer line.  Of two lines of equal
/// length the second is indexed.
pub open spec fn search_for(n_self: nat, n_other: nat) -> Search {
    if n_self < BRUTE_FORCE_SIZE && n_other < BRUTE_FORCE_SIZE {
        Search::BruteForce
    } else {
        Search::Indexed { query_is_self: n_self <= n_other }
    }
}

/// Chooses how to search for the distance between two lines, from their
/// numbers of coordinates.
pub fn line_line_dist(n_self: usize, n_other: usize) -> (search: Search)
    ensures
        search == search_for(n_self as nat, n_other as nat),
{
    if n_self < BRUTE_FORCE_SIZE && n_other < BRUTE_FORCE_SIZE {
        return Search::BruteForce;
    }
    if n_self > n_other {
        Search::Indexed { query_is_self: false }
    } else {
        Search::Indexed { query_is_self: true }
    }
}

/// The search does not depend on the order of the two lines: both orders
/// search edge by edge, or both index the same line.
pub proof fn lemma_search_symmetric(n_self: nat, n_other: nat)
    ensures
        search_for(n_self, n_other) == Search::BruteForce <==> search_for(n_other, n_self)
            == Search::BruteForce,
        n_self != n_other ==> (search_for(n_self, n_other) == (Search::Indexed { query_is_self: true })
            <==> search_for(n_other, n_self) == (Search::Indexed { query_is_self: false })),
{
}

} // verus!
