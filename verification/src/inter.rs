use vstd::prelude::*;

verus! {

/// The point is the first endpoint of the segment the query was made on.
pub const SELF_A: u8 = 0b1000;

/// The point is the second endpoint of the segment the query was made on.
pub const SELF_B: u8 = 0b0100;

/// The point is the first endpoint of the other segment.
pub const OTHER_A: u8 = 0b0010;

/// The point is the second endpoint of the other segment.
pub const OTHER_B: u8 = 0b0001;

/// The point is no endpoint of either segment.
pub const INTER_X: u8 = 0;

/// The endpoints of the segment the query was made on.
pub const SELF_MASK: u8 = 0b1100;

/// The endpoints of the other segment.
pub const OTHER_MASK: u8 = 0b0011;

/// A point where two segments meet, with the endpoints it coincides with
/// recorded in the relation mask `inter`.  The coordinate `pt` is carried
/// along and never looked into.
#[derive(Debug)]
pub struct InterPoint<P> {
    pub pt: P,
    pub inter: u8,
}

impl<P: Copy> Clone for InterPoint<P> {
    fn clone(&self) -> (r: Self)
        ensures
            r == *self,
    {
        *self
    }
}

impl<P: Copy> Copy for InterPoint<P> {

}

impl<P> InterPoint<P> {
    /// The point lies inside both segments.
    pub fn is_intersection(&self) -> (r: bool)
        ensures
            r == (self.inter == INTER_X),
    {
        self.inter == 0
    }

    /// The point is an endpoint of at least one of the segments.
    pub fn is_vertex(&self) -> (r: bool)
        ensures
            r == (self.inter & (SELF_MASK | OTHER_MASK) != 0),
    {
        let mask = SELF_MASK | OTHER_MASK;
        self.inter & mask > 0
    }

    /// The point is an endpoint of the segment the query was made on.
    pub fn is_vertex_self(&self) -> (r: bool)
        ensures
            r == (self.inter & SELF_MASK != 0),
    {
        self.inter & SELF_MASK > 0
    }

    /// The point is an endpoint of the other segment.
    pub fn is_vertex_other(&self) -> (r: bool)
        ensures
            r == (self.inter & OTHER_MASK != 0),
    {
        self.inter & OTHER_MASK > 0
    }

    /// The point is an endpoint of exactly one of the two segments.
    pub fn is_vertex_xor(&self) -> (r: bool)
        ensures
            r == ((self.inter & SELF_MASK != 0) != (self.inter & OTHER_MASK != 0)),
    {
        (self.is_vertex_self() && !self.is_vertex_other()) || (!self.is_vertex_self()
            && self.is_vertex_other())
    }
}

/// The point `pt` tagged with `bits` if it is inside, and nothing if not.
pub open spec fn tagged_if<P>(inside: bool, pt: P, bits: u8) -> Seq<InterPoint<P>> {
    if inside {
        seq![InterPoint { pt, inter: bits }]
    } else {
        Seq::empty()
    }
}

/// Adds `point`, tagged with `vbits`, to `intpts` if it is inside.
pub fn update_coords_in_bounds<P: Copy>(inside: bool, point: P, intpts: &mut Vec<InterPoint<P>>, vbits: u8)
    ensures
        final(intpts)@ == old(intpts)@ + tagged_if(inside, point, vbits),
{
    if inside {
        intpts.push(InterPoint { pt: point, inter: vbits });
        assert(intpts@ =~= old(intpts)@ + tagged_if(inside, point, vbits));
    } else {
        assert(intpts@ =~= old(intpts)@ + tagged_if(inside, point, vbits));
    }
}

/// The endpoints that two segments on one line may share: each endpoint
/// that lies inside the bounding box of the other segment, tagged with its
/// identity, in the order first segment's start and end, second segment's
/// start and end.  There are none unless the two boxes overlap.
pub open spec fn shared_endpoints<P>(
    boxes_overlap: bool,
    sa: (P, bool),
    sb: (P, bool),
    oa: (P, bool),
    ob: (P, bool),
) -> Seq<InterPoint<P>> {
    if boxes_overlap {
        tagged_if(sa.1, sa.0, SELF_A) + tagged_if(sb.1, sb.0, SELF_B) + tagged_if(oa.1, oa.0, OTHER_A)
            + tagged_if(ob.1, ob.0, OTHER_B)
    } else {
        Seq::empty()
    }
}

/// Lists the endpoints that two segments on one line may share.
///
/// Each endpoint comes with the fact whether it lies inside the bounding
/// box of the other segment.
pub fn coincident_segs<P: Copy>(
    boxes_overlap: bool,
    sa: (P, bool),
    sb: (P, bool),
    oa: (P, bool),
    ob: (P, bool),
) -> (coords: Vec<InterPoint<P>>)
    ensures
        coords@ == shared_endpoints(boxes_overlap, sa, sb, oa, ob),
{
    let mut coords: Vec<InterPoint<P>> = Vec::new();
    if boxes_overlap {
        update_coords_in_bounds(sa.1, sa.0, &mut coords, SELF_A);
        update_coords_in_bounds(sb.1, sb.0, &mut coords, SELF_B);
        update_coords_in_bounds(oa.1, oa.0, &mut coords, OTHER_A);
        update_coords_in_bounds(ob.1, ob.0, &mut coords, OTHER_B);
        assert(coords@ =~= shared_endpoints(boxes_overlap, sa, sb, oa, ob));
    }
    coords
}

/// The points that are left of `coords` from position `k` on when each run
/// of joined neighbours is folded into its last member, whose mask becomes
/// the union of the run's masks.  `acc` is the union of the masks of the
/// run's members before `k`.
pub open spec fn merged_from<P>(coords: Seq<InterPoint<P>>, joins: Seq<bool>, k: int, acc: u8) -> Seq<InterPoint<P>>
    decreases coords.len() - k,
{
    if k < 0 || k >= coords.len() {
        Seq::empty()
    } else {
        let inter = acc | coords[k].inter;
        if k + 1 < coords.len() && k < joins.len() && joins[k] {
            merged_from(coords, joins, k + 1, inter)
        } else {
            seq![InterPoint { pt: coords[k].pt, inter }] + merged_from(coords, joins, k + 1, 0)
        }
    }
}

/// `coords` with every run of joined neighbours folded into one point.
///
/// `joins[k]` says that `coords[k]` and `coords[k + 1]` are the same
/// location; neighbours of which `joins` says nothing are apart.  A run
/// keeps the coordinate of its last member and the union of its members'
/// masks; the runs keep their order.
pub open spec fn merged<P>(coords: Seq<InterPoint<P>>, joins: Seq<bool>) -> Seq<InterPoint<P>> {
    merged_from(coords, joins, 0, 0)
}

/// Folds coincident neighbours of a sorted list of tagged points.
///
/// The caller has sorted `coords` and states in `joins[k]` whether
/// `coords[k]` and `coords[k + 1]` coincide.
pub fn merge_coincident<P: Copy>(coords: &Vec<InterPoint<P>>, joins: &Vec<bool>) -> (points: Vec<InterPoint<P>>)
    ensures
        points@ == merged(coords@, joins@),
{
    let n = coords.len();
    let mut points: Vec<InterPoint<P>> = Vec::new();
    let mut acc: u8 = 0;
    let mut k: usize = 0;
    while k < n
        invariant
            n == coords.len(),
            k <= n,
            points@ + merged_from(coords@, joins@, k as int, acc) =~= merged(coords@, joins@),
        decreases n - k,
    {
        let inter = acc | coords[k].inter;
        if k + 1 < n && k < joins.len() && joins[k] {
            acc = inter;
        } else {
            let ghost rest = merged_from(coords@, joins@, k + 1, 0);
            let ghost folded = InterPoint { pt: coords@[k as int].pt, inter };
            assert(points@ + (seq![folded] + rest) =~= points@.push(folded) + rest);
            points.push(InterPoint { pt: coords[k].pt, inter });
            acc = 0;
        }
        k += 1;
    }
    points
}

/// Where no two neighbours coincide, folding changes nothing.
pub proof fn lemma_merged_without_joins<P>(coords: Seq<InterPoint<P>>, joins: Seq<bool>)
    requires
        forall|k: int| 0 <= k < joins.len() ==> !joins[k],
    ensures
        merged(coords, joins) == coords,
{
    lemma_merged_without_joins_from(coords, joins, 0);
    assert(coords.subrange(0, coords.len() as int) =~= coords);
}

proof fn lemma_merged_without_joins_from<P>(coords: Seq<InterPoint<P>>, joins: Seq<bool>, k: int)
    requires
        forall|k: int| 0 <= k < joins.len() ==> !joins[k],
        0 <= k <= coords.len(),
    ensures
        merged_from(coords, joins, k, 0) == coords.subrange(k, coords.len() as int),
    decreases coords.len() - k,
{
    if k < coords.len() {
        lemma_merged_without_joins_from(coords, joins, k + 1);
        let inter = coords[k].inter;
        assert(0u8 | inter == inter) by (bit_vector);
        assert(seq![coords[k]] + coords.subrange(k + 1, coords.len() as int) =~= coords.subrange(
            k,
            coords.len() as int,
        ));
    } else {
        assert(coords.subrange(k, coords.len() as int) =~= Seq::empty());
    }
}

/// Folding leaves one point for each pair of neighbours that do not
/// coincide, and one more for the end of the list.
pub proof fn lemma_merged_len<P>(coords: Seq<InterPoint<P>>, joins: Seq<bool>)
    requires
        joins.len() + 1 == coords.len(),
    ensures
        merged(coords, joins).len() == 1 + joins.filter(|b: bool| !b).len(),
{
    lemma_merged_len_from(coords, joins, 0, 0);
    assert(joins.subrange(0, joins.len() as int) =~= joins);
}

proof fn lemma_merged_len_from<P>(coords: Seq<InterPoint<P>>, joins: Seq<bool>, k: int, acc: u8)
    requires
        joins.len() + 1 == coords.len(),
        0 <= k < coords.len(),
    ensures
        merged_from(coords, joins, k, acc).len() == 1 + joins.subrange(k, joins.len() as int).filter(
            |b: bool| !b,
        ).len(),
    decreases coords.len() - k,
{
    let apart = |b: bool| !b;
    let tail = joins.subrange(k, joins.len() as int);
    if k + 1 < coords.len() {
        let next = joins.subrange(k + 1, joins.len() as int);
        assert(tail =~= seq![joins[k]] + next);
        lemma_filter_prepend(joins[k], next);
        let inter = acc | coords[k].inter;
        if joins[k] {
            lemma_merged_len_from(coords, joins, k + 1, inter);
        } else {
            lemma_merged_len_from(coords, joins, k + 1, 0);
        }
    } else {
        assert(tail =~= Seq::empty());
        assert(tail.filter(apart) =~= Seq::empty()) by {
            reveal(Seq::filter);
        }
        assert(merged_from(coords, joins, k + 1, 0) =~= Seq::empty());
    }
}

/// Counting the neighbours that stay apart, one flag at a time.
proof fn lemma_filter_prepend(first: bool, rest: Seq<bool>)
    ensures
        (seq![first] + rest).filter(|b: bool| !b).len() == rest.filter(|b: bool| !b).len() + (if first {
            0int
        } else {
            1int
        }),
{
    let apart = |b: bool| !b;
    Seq::filter_distributes_over_add(seq![first], rest, apart);
    reveal(Seq::filter);
    assert(seq![first].drop_last() =~= Seq::<bool>::empty());
    assert(Seq::<bool>::empty().filter(apart) =~= Seq::empty());
    assert(seq![first].filter(apart).len() == (if first { 0int } else { 1int }));
}

} // verus!
