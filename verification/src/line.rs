use vstd::prelude::*;
use vstd::seq_lib::lemma_seq_contains_after_push;
use crate::mono::MonoSpan;
use crate::query::{accepts, accepts_pairs, describes, describes_pairs, PairTest, Test};

verus! {

/// Some hole, one of the rings `1 .. n_rings`, passes the test.
pub open spec fn some_hole(p: Test, n_rings: nat) -> bool {
    exists|k: usize| 1 <= k < n_rings && #[trigger] p(k)
}

/// Whether a line meets a polygon of `n_rings` rings.
///
/// `hits` tells whether the line meets a ring's boundary, `holds` whether a
/// ring contains the line.  The line meets the polygon if it meets the
/// shell's boundary; or if the shell contains it and it either meets the
/// boundary of a hole or lies in no hole.
pub open spec fn line_meets_polygon(n_rings: nat, hits: Test, holds: Test) -> bool {
    hits(0) || (holds(0) && (some_hole(hits, n_rings) || !some_hole(holds, n_rings)))
}

/// Decides whether a line intersects a polygon of `n_rings` rings.
///
/// `hits(k)` tells whether the line meets the boundary of ring `k`, and
/// `holds(k)` whether ring `k` contains the line.  Rings are asked about
/// only as far as the answer needs them.  Whatever tests describe the
/// answers of `hits` and `holds`, the result is the relation under those
/// tests.
pub fn intersects_polygon<H: Fn(usize) -> bool, C: Fn(usize) -> bool>(
    n_rings: usize,
    hits: &H,
    holds: &C,
) -> (bln: bool)
    requires
        n_rings >= 1,
        accepts(*hits, n_rings as nat),
        accepts(*holds, n_rings as nat),
    ensures
        forall|h: Test, c: Test|
            #![trigger describes(h, *hits, n_rings as nat), describes(c, *holds, n_rings as nat)]
            describes(h, *hits, n_rings as nat) && describes(c, *holds, n_rings as nat) ==> bln
                == line_meets_polygon(n_rings as nat, h, c),
{
    let mut intersects_hole = false;
    let mut in_hole = false;

    let mut bln = hits(0);
    let ghost hits_shell = bln;
    let ghost in_shell = false;
    let ghost asked_holds = false;
    //if false, check if shell contains line
    if !bln {
        bln = holds(0);
        proof {
            in_shell = bln;
        }
        //inside shell, does it touch hole boundary ?
        let mut i: usize = 1;
        while bln && !intersects_hole && i < n_rings
            invariant
                1 <= i <= n_rings,
                accepts(*hits, n_rings as nat),
                forall|h: Test| #[trigger]
                    describes(h, *hits, n_rings as nat) ==> (intersects_hole ==> some_hole(h, n_rings as nat))
                        && (!intersects_hole ==> forall|k: usize| 1 <= k < i ==> !#[trigger] h(k)),
            decreases n_rings - i,
        {
            intersects_hole = hits(i);
            proof {
                assert(call_ensures(*hits, (i,), intersects_hole));
                assert forall|h: Test| #[trigger] describes(h, *hits, n_rings as nat) implies h(i)
                    == intersects_hole by {}
            }
            i += 1;
        }
        //inside shell but does not touch the boundary of holes
        if bln && !intersects_hole {
            //check if completely contained in hole
            let mut i: usize = 1;
            while !in_hole && i < n_rings
                invariant
                    1 <= i <= n_rings,
                    accepts(*holds, n_rings as nat),
                    forall|c: Test| #[trigger]
                        describes(c, *holds, n_rings as nat) ==> (in_hole ==> some_hole(c, n_rings as nat))
                            && (!in_hole ==> forall|k: usize| 1 <= k < i ==> !#[trigger] c(k)),
                decreases n_rings - i,
            {
                in_hole = holds(i);
                proof {
                    assert(call_ensures(*holds, (i,), in_hole));
                    assert forall|c: Test| #[trigger] describes(c, *holds, n_rings as nat) implies c(
                        i,
                    ) == in_hole by {}
                }
                i += 1;
            }
        }
        bln = bln && !in_hole;
    }
    proof {
        assert(call_ensures(*hits, (0usize,), hits_shell));
        assert forall|h: Test, c: Test|
            #![trigger describes(h, *hits, n_rings as nat), describes(c, *holds, n_rings as nat)]
            describes(h, *hits, n_rings as nat) && describes(c, *holds, n_rings as nat) implies bln
            == line_meets_polygon(n_rings as nat, h, c) by {
            assert(h(0) == hits_shell);
            if !hits_shell {
                assert(call_ensures(*holds, (0usize,), in_shell));
                assert(c(0) == in_shell);
            }
        }
    }
    bln
}

/// Vertex `v` of a line lies in the polygon: inside the shell and inside
/// none of the holes.
pub open spec fn vertex_in_polygon(inside: PairTest, n_rings: nat, v: usize) -> bool {
    inside(0, v) && forall|h: usize| 1 <= h < n_rings ==> !#[trigger] inside(h, v)
}

/// Picks the vertices of a line that lie in a polygon of `n_rings` rings,
/// in their order along the line.
///
/// `inside(k, v)` tells whether ring `k` contains vertex `v`.  Whatever
/// test describes the answers of `inside`, the result holds exactly the
/// vertices that lie in the polygon under that test.
pub fn vertices_in_polygon<F: Fn(usize, usize) -> bool>(n_vertices: usize, n_rings: usize, inside: &F) -> (kept:
    Vec<usize>)
    requires
        n_rings >= 1,
        accepts_pairs(*inside, n_rings as nat, n_vertices as nat),
    ensures
        forall|a: int| 0 <= a < kept.len() ==> #[trigger] kept[a] < n_vertices,
        forall|a: int, b: int| 0 <= a < b < kept.len() ==> kept[a] < kept[b],
        forall|p: PairTest| #[trigger]
            describes_pairs(p, *inside, n_rings as nat, n_vertices as nat) ==> forall|v: usize|
                kept@.contains(v) <==> v < n_vertices && vertex_in_polygon(p, n_rings as nat, v),
{
    let mut kept: Vec<usize> = Vec::new();
    let mut idx: usize = 0;
    while idx < n_vertices
        invariant
            idx <= n_vertices,
            n_rings >= 1,
            accepts_pairs(*inside, n_rings as nat, n_vertices as nat),
            forall|a: int| 0 <= a < kept.len() ==> #[trigger] kept[a] < idx,
            forall|a: int, b: int| 0 <= a < b < kept.len() ==> kept[a] < kept[b],
            forall|p: PairTest| #[trigger]
                describes_pairs(p, *inside, n_rings as nat, n_vertices as nat) ==> forall|v: usize|
                    kept@.contains(v) <==> v < idx && vertex_in_polygon(p, n_rings as nat, v),
        decreases n_vertices - idx,
    {
        let ghost before = kept@;
        let mut keep = false;
        let in_shell = inside(0, idx);
        if in_shell {
            let mut inhole = false;
            let mut i: usize = 1;
            while !inhole && i < n_rings
                invariant
                    1 <= i <= n_rings,
                    idx < n_vertices,
                    accepts_pairs(*inside, n_rings as nat, n_vertices as nat),
                    forall|p: PairTest| #[trigger]
                        describes_pairs(p, *inside, n_rings as nat, n_vertices as nat) ==> (inhole ==> exists|
                            h: usize,
                        |
                            1 <= h < n_rings && #[trigger] p(h, idx)) && (!inhole ==> forall|h: usize|
                            1 <= h < i ==> !#[trigger] p(h, idx)),
                decreases n_rings - i,
            {
                inhole = inside(i, idx);
                proof {
                    assert(call_ensures(*inside, (i, idx), inhole));
                    assert forall|p: PairTest| #[trigger]
                        describes_pairs(p, *inside, n_rings as nat, n_vertices as nat) implies p(i, idx)
                        == inhole by {}
                }
                i += 1;
            }
            if !inhole {
                kept.push(idx);
                keep = true;
            }
        }
        proof {
            assert(call_ensures(*inside, (0usize, idx), in_shell));
            assert forall|p: PairTest| #[trigger]
                describes_pairs(p, *inside, n_rings as nat, n_vertices as nat) implies forall|v: usize|
                kept@.contains(v) <==> v < idx + 1 && vertex_in_polygon(p, n_rings as nat, v) by {
                assert(p(0, idx) == in_shell);
                assert(keep == vertex_in_polygon(p, n_rings as nat, idx));
                assert forall|v: usize| kept@.contains(v) <==> v < idx + 1 && vertex_in_polygon(
                    p,
                    n_rings as nat,
                    v,
                ) by {
                    assert(before.contains(v) <==> v < idx && vertex_in_polygon(p, n_rings as nat, v));
                    if keep {
                        assert(kept@ == before.push(idx));
                        assert(kept@[before.len() as int] == idx);
                        if before.contains(v) {
                            let a = choose|a: int| 0 <= a < before.len() && before[a] == v;
                            assert(kept@[a] == v);
                        }
                        if kept@.contains(v) {
                            let a = choose|a: int| 0 <= a < kept@.len() && kept@[a] == v;
                            if a < before.len() {
                                assert(before[a] == v);
                            }
                        }
                    }
                }
            }
        }
        idx += 1;
    }
    kept
}

/// Collects the edges of the run `i .. j` that are in range, in order.
/// Edge `m` runs from vertex `m` to vertex `m + 1`.
///
/// `in_range(m)` tells whether edge `m` is in range.  `seglist` is emptied
/// first.  Whatever test describes the answers of `in_range`, the list
/// then holds exactly the edges of the run that pass it.
pub fn segs_in_range<F: Fn(usize) -> bool>(seglist: &mut Vec<usize>, i: usize, j: usize, in_range: &F)
    requires
        accepts(*in_range, j as nat),
    ensures
        forall|a: int| 0 <= a < final(seglist).len() ==> i <= #[trigger] final(seglist)[a] < j,
        forall|a: int, b: int| 0 <= a < b < final(seglist).len() ==> final(seglist)[a] < final(seglist)[b],
        forall|p: Test| #[trigger]
            describes(p, *in_range, j as nat) ==> forall|m: usize|
                final(seglist)@.contains(m) <==> i <= m < j && p(m),
{
    seglist.clear();
    let mut m: usize = i;
    while m < j
        invariant
            i <= m || j <= m,
            accepts(*in_range, j as nat),
            forall|a: int| 0 <= a < seglist.len() ==> i <= #[trigger] seglist[a] < m && seglist[a] < j,
            forall|a: int, b: int| 0 <= a < b < seglist.len() ==> seglist[a] < seglist[b],
            forall|p: Test| #[trigger]
                describes(p, *in_range, j as nat) ==> forall|e: usize|
                    seglist@.contains(e) <==> i <= e < m && e < j && p(e),
        decreases j - m,
    {
        let ghost before = seglist@;
        let picked = in_range(m);
        if picked {
            seglist.push(m);
        }
        proof {
            assert(call_ensures(*in_range, (m,), picked));
            assert forall|p: Test| #[trigger] describes(p, *in_range, j as nat) implies forall|e: usize|
                seglist@.contains(e) <==> i <= e < m + 1 && e < j && p(e) by {
                assert(p(m) == picked);
                assert forall|e: usize| seglist@.contains(e) <==> i <= e < m + 1 && e < j && p(e) by {
                    assert(before.contains(e) <==> i <= e < m && e < j && p(e));
                    if picked {
                        assert(seglist@ == before.push(m));
                        assert(seglist@[before.len() as int] == m);
                        if before.contains(e) {
                            let a = choose|a: int| 0 <= a < before.len() && before[a] == e;
                            assert(seglist@[a] == e);
                        }
                        if seglist@.contains(e) {
                            let a = choose|a: int| 0 <= a < seglist@.len() && seglist@[a] == e;
                            if a < before.len() {
                                assert(before[a] == e);
                            }
                        }
                    }
                }
            }
        }
        m += 1;
    }
}

/// All edges of the list are below `n`.
pub open spec fn edges_below(edges: Seq<usize>, n: nat) -> bool {
    forall|k: int| 0 <= k < edges.len() ==> #[trigger] edges[k] < n
}

/// Some edge of `a` and some edge of `b` pass the test together.
pub open spec fn some_pair(p: PairTest, a: Seq<usize>, b: Seq<usize>) -> bool {
    exists|x: int, y: int| 0 <= x < a.len() && 0 <= y < b.len() && #[trigger] p(a[x], b[y])
}

/// Tests whether any edge of one line meets any edge of another.
///
/// `a_segs` holds edges of a line of `na` edges, `b_segs` edges of a line
/// of `nb` edges, and `meets(a, b)` tells whether edge `a` of the first
/// line meets edge `b` of the second.  The search stops at the first pair
/// that meets.
pub fn seg_seg_intersects<F: Fn(usize, usize) -> bool>(
    na: usize,
    nb: usize,
    a_segs: &Vec<usize>,
    b_segs: &Vec<usize>,
    meets: &F,
) -> (bln: bool)
    requires
        edges_below(a_segs@, na as nat),
        edges_below(b_segs@, nb as nat),
        accepts_pairs(*meets, na as nat, nb as nat),
    ensures
        forall|p: PairTest| #[trigger]
            describes_pairs(p, *meets, na as nat, nb as nat) ==> bln == some_pair(p, a_segs@, b_segs@),
{
    let mut bln = false;
    let mut a: usize = 0;
    while !bln && a < a_segs.len()
        invariant
            a <= a_segs.len(),
            edges_below(a_segs@, na as nat),
            edges_below(b_segs@, nb as nat),
            accepts_pairs(*meets, na as nat, nb as nat),
            forall|p: PairTest| #[trigger]
                describes_pairs(p, *meets, na as nat, nb as nat) ==> (bln ==> some_pair(p, a_segs@, b_segs@))
                    && (!bln ==> forall|x: int, y: int|
                    0 <= x < a && 0 <= y < b_segs.len() ==> !#[trigger] p(a_segs[x], b_segs[y])),
        decreases a_segs.len() - a,
    {
        let mut b: usize = 0;
        while !bln && b < b_segs.len()
            invariant
                a < a_segs.len(),
                b <= b_segs.len(),
                edges_below(a_segs@, na as nat),
                edges_below(b_segs@, nb as nat),
                accepts_pairs(*meets, na as nat, nb as nat),
                forall|p: PairTest| #[trigger]
                    describes_pairs(p, *meets, na as nat, nb as nat) ==> (bln ==> some_pair(
                        p,
                        a_segs@,
                        b_segs@,
                    )) && (!bln ==> forall|y: int| 0 <= y < b ==> !#[trigger] p(a_segs[a as int], b_segs[y])),
            decreases b_segs.len() - b,
        {
            bln = meets(a_segs[a], b_segs[b]);
            proof {
                assert(call_ensures(*meets, (a_segs[a as int], b_segs[b as int]), bln));
                assert forall|p: PairTest| #[trigger]
                    describes_pairs(p, *meets, na as nat, nb as nat) implies p(
                    a_segs[a as int],
                    b_segs[b as int],
                ) == bln by {}
            }
            b += 1;
        }
        a += 1;
    }
    bln
}

/// Whether some pair of edges meets does not depend on which line is taken
/// first.
pub proof fn lemma_some_pair_symmetric(p: PairTest, a: Seq<usize>, b: Seq<usize>)
    ensures
        some_pair(|y: usize, x: usize| p(x, y), b, a) == some_pair(p, a, b),
{
    let q = |y: usize, x: usize| p(x, y);
    if some_pair(p, a, b) {
        let (x, y) = choose|x: int, y: int| 0 <= x < a.len() && 0 <= y < b.len() && #[trigger] p(a[x], b[y]);
        assert(q(b[y], a[x]));
    }
    if some_pair(q, b, a) {
        let (y, x) = choose|y: int, x: int| 0 <= y < b.len() && 0 <= x < a.len() && #[trigger] q(b[y], a[x]);
        assert(p(a[x], b[y]));
    }
}

/// A chain of a first line paired with a chain of a second line.
pub type ChainPair = (MonoSpan, MonoSpan);

/// Every pair's chains lie within lines of `na` and `nb` edges.
pub open spec fn pairs_within(pairs: Seq<ChainPair>, na: nat, nb: nat) -> bool {
    forall|k: int| 0 <= k < pairs.len() ==> (#[trigger] pairs[k]).0.j <= na && pairs[k].1.j <= nb
}

/// Edge `e` of the first line and edge `g` of the second are both in range
/// of chain pair `k`: each is an edge of its chain and passes the range
/// test of the pair.
pub open spec fn in_range_of(
    pairs: Seq<ChainPair>,
    in_self: PairTest,
    in_other: PairTest,
    k: int,
    e: usize,
    g: usize,
) -> bool {
    &&& 0 <= k < pairs.len()
    &&& pairs[k].0.i <= e < pairs[k].0.j
    &&& pairs[k].1.i <= g < pairs[k].1.j
    &&& in_self(k as usize, e)
    &&& in_other(k as usize, g)
}

/// Edges `e` and `g` are in range of some chain pair.
pub open spec fn is_candidate(pairs: Seq<ChainPair>, in_self: PairTest, in_other: PairTest, e: usize, g: usize) -> bool {
    exists|k: int| in_range_of(pairs, in_self, in_other, k, e, g)
}

/// Two lines meet: some edge of the first and some edge of the second are
/// in range of a chain pair and meet.
pub open spec fn lines_meet(pairs: Seq<ChainPair>, in_self: PairTest, in_other: PairTest, meets: PairTest) -> bool {
    exists|k: int, e: usize, g: usize| #[trigger] in_range_of(pairs, in_self, in_other, k, e, g) && meets(e, g)
}

/// Decides whether two lines intersect, a first line of `na` edges and a
/// second of `nb` edges.
///
/// `pairs` are the pairs of chains whose boxes overlap.  `in_self(k, e)`
/// tells whether edge `e` of the first line is in range of pair `k`,
/// `in_other(k, g)` the same of edge `g` of the second line, and
/// `meets(e, g)` whether the two edges meet.  Only edges in range of one
/// pair are tested against each other, and the search stops at the first
/// two that meet.
pub fn intersects_linestring<A: Fn(usize, usize) -> bool, B: Fn(usize, usize) -> bool, M: Fn(usize, usize) -> bool>(
    na: usize,
    nb: usize,
    pairs: &Vec<ChainPair>,
    in_self: &A,
    in_other: &B,
    meets: &M,
) -> (bln: bool)
    requires
        pairs_within(pairs@, na as nat, nb as nat),
        accepts_pairs(*in_self, pairs.len() as nat, na as nat),
        accepts_pairs(*in_other, pairs.len() as nat, nb as nat),
        accepts_pairs(*meets, na as nat, nb as nat),
    ensures
        forall|ps: PairTest, po: PairTest, pm: PairTest|
            #![trigger describes_pairs(ps, *in_self, pairs.len() as nat, na as nat), describes_pairs(po, *in_other, pairs.len() as nat, nb as nat), describes_pairs(pm, *meets, na as nat, nb as nat)]
            describes_pairs(ps, *in_self, pairs.len() as nat, na as nat) && describes_pairs(
                po,
                *in_other,
                pairs.len() as nat,
                nb as nat,
            ) && describes_pairs(pm, *meets, na as nat, nb as nat) ==> bln == lines_meet(pairs@, ps, po, pm),
{
    let mut bln = false;
    let mut othersegs: Vec<usize> = Vec::new();
    let mut selfsegs: Vec<usize> = Vec::new();

    let mut k: usize = 0;
    while !bln && k < pairs.len()
        invariant
            k <= pairs.len(),
            pairs_within(pairs@, na as nat, nb as nat),
            accepts_pairs(*in_self, pairs.len() as nat, na as nat),
            accepts_pairs(*in_other, pairs.len() as nat, nb as nat),
            accepts_pairs(*meets, na as nat, nb as nat),
            forall|ps: PairTest, po: PairTest, pm: PairTest|
                #![trigger describes_pairs(ps, *in_self, pairs.len() as nat, na as nat), describes_pairs(po, *in_other, pairs.len() as nat, nb as nat), describes_pairs(pm, *meets, na as nat, nb as nat)]
                describes_pairs(ps, *in_self, pairs.len() as nat, na as nat) && describes_pairs(
                    po,
                    *in_other,
                    pairs.len() as nat,
                    nb as nat,
                ) && describes_pairs(pm, *meets, na as nat, nb as nat) ==> (bln ==> lines_meet(
                    pairs@,
                    ps,
                    po,
                    pm,
                )) && (!bln ==> forall|l: int, e: usize, g: usize|
                    l < k && #[trigger] in_range_of(pairs@, ps, po, l, e, g) ==> !pm(e, g)),
        decreases pairs.len() - k,
    {
        let ibox = pairs[k].0;
        let qbox = pairs[k].1;
        assert(ibox.j <= na && qbox.j <= nb);

        let pick_self = |m: usize| -> (r: bool)
            requires
                call_requires(in_self, (k, m)),
            ensures
                call_ensures(in_self, (k, m), r),
            { in_self(k, m) };
        let pick_other = |m: usize| -> (r: bool)
            requires
                call_requires(in_other, (k, m)),
            ensures
                call_ensures(in_other, (k, m), r),
            { in_other(k, m) };
        segs_in_range(&mut selfsegs, ibox.i, ibox.j, &pick_self);
        segs_in_range(&mut othersegs, qbox.i, qbox.j, &pick_other);

        let mut found = false;
        if othersegs.len() > 0 && selfsegs.len() > 0 {
            found = seg_seg_intersects(na, nb, &selfsegs, &othersegs, meets);
        }
        proof {
            assert forall|ps: PairTest, po: PairTest, pm: PairTest|
                #![trigger describes_pairs(ps, *in_self, pairs.len() as nat, na as nat), describes_pairs(po, *in_other, pairs.len() as nat, nb as nat), describes_pairs(pm, *meets, na as nat, nb as nat)]
                describes_pairs(ps, *in_self, pairs.len() as nat, na as nat) && describes_pairs(
                    po,
                    *in_other,
                    pairs.len() as nat,
                    nb as nat,
                ) && describes_pairs(pm, *meets, na as nat, nb as nat) implies (found ==> lines_meet(
                pairs@,
                ps,
                po,
                pm,
            )) && (!found ==> forall|l: int, e: usize, g: usize|
                l < k + 1 && #[trigger] in_range_of(pairs@, ps, po, l, e, g) ==> !pm(e, g)) by {
                let qs: Test = |m: usize| ps(k, m);
                let qo: Test = |m: usize| po(k, m);
                assert(describes(qs, pick_self, ibox.j as nat));
                assert(describes(qo, pick_other, qbox.j as nat));
                assert(forall|m: usize| selfsegs@.contains(m) <==> ibox.i <= m < ibox.j && qs(m));
                assert(forall|m: usize| othersegs@.contains(m) <==> qbox.i <= m < qbox.j && qo(m));
                if othersegs.len() > 0 && selfsegs.len() > 0 {
                    assert(found == some_pair(pm, selfsegs@, othersegs@));
                }
                if found {
                    let (x, y) = choose|x: int, y: int|
                        0 <= x < selfsegs@.len() && 0 <= y < othersegs@.len() && #[trigger] pm(
                            selfsegs@[x],
                            othersegs@[y],
                        );
                    let e = selfsegs@[x];
                    let g = othersegs@[y];
                    assert(selfsegs@.contains(e));
                    assert(othersegs@.contains(g));
                    assert(in_range_of(pairs@, ps, po, k as int, e, g));
                } else {
                    assert forall|e: usize, g: usize| #[trigger]
                        in_range_of(pairs@, ps, po, k as int, e, g) implies !pm(e, g) by {
                        assert(selfsegs@.contains(e));
                        assert(othersegs@.contains(g));
                        let x = choose|x: int| 0 <= x < selfsegs@.len() && selfsegs@[x] == e;
                        let y = choose|y: int| 0 <= y < othersegs@.len() && othersegs@[y] == g;
                        if pm(e, g) {
                            assert(pm(selfsegs@[x], othersegs@[y]));
                            assert(some_pair(pm, selfsegs@, othersegs@));
                        }
                    }
                }
            }
        }
        bln = found;
        k += 1;
    }
    bln
}

/// Edge `e` is among the first `x` edges of `a_segs`, and edge `g` among
/// the first `y` edges of `b_segs`.
pub open spec fn paired_so_far(a_segs: Seq<usize>, b_segs: Seq<usize>, x: int, y: int, e: usize, g: usize) -> bool {
    a_segs.take(x).contains(e) && b_segs.take(y).contains(g)
}

/// Lists the pairs of edges of two lines that may meet, a first line of
/// `na` edges and a second of `nb` edges.
///
/// `pairs` are the pairs of chains whose boxes overlap, `in_self(k, e)`
/// tells whether edge `e` of the first line is in range of pair `k`, and
/// `in_other(k, g)` the same of edge `g` of the second line.  The list
/// holds every pair of edges that are in range of one chain pair, and no
/// other; a pair of edges in range of several chain pairs is listed for
/// each of them.
pub fn linear_intersection<A: Fn(usize, usize) -> bool, B: Fn(usize, usize) -> bool>(
    na: usize,
    nb: usize,
    pairs: &Vec<ChainPair>,
    in_self: &A,
    in_other: &B,
) -> (found: Vec<(usize, usize)>)
    requires
        pairs_within(pairs@, na as nat, nb as nat),
        accepts_pairs(*in_self, pairs.len() as nat, na as nat),
        accepts_pairs(*in_other, pairs.len() as nat, nb as nat),
    ensures
        forall|x: int| 0 <= x < found.len() ==> (#[trigger] found[x]).0 < na && found[x].1 < nb,
        forall|ps: PairTest, po: PairTest|
            #![trigger describes_pairs(ps, *in_self, pairs.len() as nat, na as nat), describes_pairs(po, *in_other, pairs.len() as nat, nb as nat)]
            describes_pairs(ps, *in_self, pairs.len() as nat, na as nat) && describes_pairs(
                po,
                *in_other,
                pairs.len() as nat,
                nb as nat,
            ) ==> forall|e: usize, g: usize| #[trigger] found@.contains((e, g)) <==> is_candidate(pairs@, ps, po, e, g),
{
    let mut found: Vec<(usize, usize)> = Vec::new();
    let mut othersegs: Vec<usize> = Vec::new();
    let mut selfsegs: Vec<usize> = Vec::new();

    let mut k: usize = 0;
    while k < pairs.len()
        invariant
            k <= pairs.len(),
            pairs_within(pairs@, na as nat, nb as nat),
            accepts_pairs(*in_self, pairs.len() as nat, na as nat),
            accepts_pairs(*in_other, pairs.len() as nat, nb as nat),
            forall|x: int| 0 <= x < found.len() ==> (#[trigger] found[x]).0 < na && found[x].1 < nb,
            forall|ps: PairTest, po: PairTest|
                #![trigger describes_pairs(ps, *in_self, pairs.len() as nat, na as nat), describes_pairs(po, *in_other, pairs.len() as nat, nb as nat)]
                describes_pairs(ps, *in_self, pairs.len() as nat, na as nat) && describes_pairs(
                    po,
                    *in_other,
                    pairs.len() as nat,
                    nb as nat,
                ) ==> forall|e: usize, g: usize|
                    #[trigger] found@.contains((e, g)) <==> exists|l: int|
                        l < k && #[trigger] in_range_of(pairs@, ps, po, l, e, g),
        decreases pairs.len() - k,
    {
        let ibox = pairs[k].0;
        let qbox = pairs[k].1;
        assert(ibox.j <= na && qbox.j <= nb);

        let pick_self = |m: usize| -> (r: bool)
            requires
                call_requires(in_self, (k, m)),
            ensures
                call_ensures(in_self, (k, m), r),
            { in_self(k, m) };
        let pick_other = |m: usize| -> (r: bool)
            requires
                call_requires(in_other, (k, m)),
            ensures
                call_ensures(in_other, (k, m), r),
            { in_other(k, m) };
        segs_in_range(&mut selfsegs, ibox.i, ibox.j, &pick_self);
        segs_in_range(&mut othersegs, qbox.i, qbox.j, &pick_other);

        let ghost base = found@;
        let mut x: usize = 0;
        while x < selfsegs.len()
            invariant
                x <= selfsegs.len(),
                forall|a: int| 0 <= a < selfsegs.len() ==> #[trigger] selfsegs[a] < na,
                forall|b: int| 0 <= b < othersegs.len() ==> #[trigger] othersegs[b] < nb,
                forall|x: int| 0 <= x < found.len() ==> (#[trigger] found[x]).0 < na && found[x].1 < nb,
                forall|e: usize, g: usize|
                    #[trigger] found@.contains((e, g)) <==> base.contains((e, g)) || paired_so_far(
                        selfsegs@,
                        othersegs@,
                        x as int,
                        othersegs.len() as int,
                        e,
                        g,
                    ),
            decreases selfsegs.len() - x,
        {
            let ghost row = found@;
            let mut y: usize = 0;
            while y < othersegs.len()
                invariant
                    x < selfsegs.len(),
                    y <= othersegs.len(),
                    forall|a: int| 0 <= a < selfsegs.len() ==> #[trigger] selfsegs[a] < na,
                    forall|b: int| 0 <= b < othersegs.len() ==> #[trigger] othersegs[b] < nb,
                    forall|x: int| 0 <= x < found.len() ==> (#[trigger] found[x]).0 < na && found[x].1 < nb,
                    forall|e: usize, g: usize|
                        #[trigger] row.contains((e, g)) <==> base.contains((e, g)) || paired_so_far(
                            selfsegs@,
                            othersegs@,
                            x as int,
                            othersegs.len() as int,
                            e,
                            g,
                        ),
                    forall|e: usize, g: usize|
                        #[trigger] found@.contains((e, g)) <==> row.contains((e, g)) || (e == selfsegs[x as int]
                            && othersegs@.take(y as int).contains(g)),
                decreases othersegs.len() - y,
            {
                proof {
                    let before = found@;
                    let added = (selfsegs[x as int], othersegs[y as int]);
                    assert(othersegs@.take(y + 1) =~= othersegs@.take(y as int).push(othersegs[y as int]));
                    assert forall|e: usize, g: usize|
                        #[trigger] before.push(added).contains((e, g)) <==> row.contains((e, g)) || (e
                            == selfsegs[x as int] && othersegs@.take(y + 1).contains(g)) by {
                        lemma_seq_contains_after_push(before, added, (e, g));
                        lemma_seq_contains_after_push(othersegs@.take(y as int), othersegs[y as int], g);
                    }
                }
                found.push((selfsegs[x], othersegs[y]));
                y += 1;
            }
            proof {
                assert(selfsegs@.take(x + 1) =~= selfsegs@.take(x as int).push(selfsegs[x as int]));
                assert forall|e: usize, g: usize|
                    #[trigger] found@.contains((e, g)) <==> base.contains((e, g)) || paired_so_far(
                        selfsegs@,
                        othersegs@,
                        x + 1,
                        othersegs.len() as int,
                        e,
                        g,
                    ) by {
                    lemma_seq_contains_after_push(selfsegs@.take(x as int), selfsegs[x as int], e);
                }
            }
            x += 1;
        }
        proof {
            assert(selfsegs@.take(selfsegs.len() as int) =~= selfsegs@);
            assert(othersegs@.take(othersegs.len() as int) =~= othersegs@);
            assert forall|ps: PairTest, po: PairTest|
                #![trigger describes_pairs(ps, *in_self, pairs.len() as nat, na as nat), describes_pairs(po, *in_other, pairs.len() as nat, nb as nat)]
                describes_pairs(ps, *in_self, pairs.len() as nat, na as nat) && describes_pairs(
                    po,
                    *in_other,
                    pairs.len() as nat,
                    nb as nat,
                ) implies forall|e: usize, g: usize|
                #[trigger] found@.contains((e, g)) <==> exists|l: int|
                    l < k + 1 && #[trigger] in_range_of(pairs@, ps, po, l, e, g) by {
                let qs: Test = |m: usize| ps(k, m);
                let qo: Test = |m: usize| po(k, m);
                assert(describes(qs, pick_self, ibox.j as nat));
                assert(describes(qo, pick_other, qbox.j as nat));
                assert(forall|m: usize| selfsegs@.contains(m) <==> ibox.i <= m < ibox.j && qs(m));
                assert(forall|m: usize| othersegs@.contains(m) <==> qbox.i <= m < qbox.j && qo(m));
                assert forall|e: usize, g: usize|
                    #[trigger] found@.contains((e, g)) <==> exists|l: int|
                        l < k + 1 && #[trigger] in_range_of(pairs@, ps, po, l, e, g) by {
                    let here = selfsegs@.contains(e) && othersegs@.contains(g);
                    assert(here <==> in_range_of(pairs@, ps, po, k as int, e, g));
                    assert(#[trigger] base.contains((e, g)) <==> exists|l: int|
                        l < k && #[trigger] in_range_of(pairs@, ps, po, l, e, g));
                    if found@.contains((e, g)) {
                        if here {
                            assert(in_range_of(pairs@, ps, po, k as int, e, g));
                        } else {
                            let l = choose|l: int| l < k && #[trigger] in_range_of(pairs@, ps, po, l, e, g);
                            assert(l < k + 1 && in_range_of(pairs@, ps, po, l, e, g));
                        }
                    }
                    if exists|l: int| l < k + 1 && #[trigger] in_range_of(pairs@, ps, po, l, e, g) {
                        let l = choose|l: int| l < k + 1 && #[trigger] in_range_of(pairs@, ps, po, l, e, g);
                        if l < k {
                            assert(base.contains((e, g)));
                        }
                    }
                }
            }
        }
        k += 1;
    }
    proof {
        assert forall|ps: PairTest, po: PairTest|
            #![trigger describes_pairs(ps, *in_self, pairs.len() as nat, na as nat), describes_pairs(po, *in_other, pairs.len() as nat, nb as nat)]
            describes_pairs(ps, *in_self, pairs.len() as nat, na as nat) && describes_pairs(
                po,
                *in_other,
                pairs.len() as nat,
                nb as nat,
            ) implies forall|e: usize, g: usize| #[trigger] found@.contains((e, g)) <==> is_candidate(pairs@, ps, po, e, g) by {
            assert forall|e: usize, g: usize| #[trigger] found@.contains((e, g)) <==> is_candidate(
                pairs@,
                ps,
                po,
                e,
                g,
            ) by {
                if found@.contains((e, g)) {
                    let l = choose|l: int| l < k && #[trigger] in_range_of(pairs@, ps, po, l, e, g);
                    assert(in_range_of(pairs@, ps, po, l, e, g));
                }
                if is_candidate(pairs@, ps, po, e, g) {
                    let l = choose|l: int| in_range_of(pairs@, ps, po, l, e, g);
                    assert(l < k && in_range_of(pairs@, ps, po, l, e, g));
                }
            }
        }
    }
    found
}

/// Two lines meet exactly when some pair of edges that may meet does.
pub proof fn lemma_lines_meet_at_a_candidate(pairs: Seq<ChainPair>, in_self: PairTest, in_other: PairTest, meets: PairTest)
    ensures
        lines_meet(pairs, in_self, in_other, meets) <==> exists|e: usize, g: usize| #[trigger]
            is_candidate(pairs, in_self, in_other, e, g) && meets(e, g),
{
    if lines_meet(pairs, in_self, in_other, meets) {
        let (k, e, g) = choose|k: int, e: usize, g: usize| #[trigger]
            in_range_of(pairs, in_self, in_other, k, e, g) && meets(e, g);
        assert(is_candidate(pairs, in_self, in_other, e, g));
    }
    if exists|e: usize, g: usize| #[trigger] is_candidate(pairs, in_self, in_other, e, g) && meets(e, g) {
        let (e, g) = choose|e: usize, g: usize| #[trigger]
            is_candidate(pairs, in_self, in_other, e, g) && meets(e, g);
        let k = choose|k: int| in_range_of(pairs, in_self, in_other, k, e, g);
        assert(in_range_of(pairs, in_self, in_other, k, e, g) && meets(e, g));
    }
}

/// The chain pairs seen from the second line.
pub open spec fn swapped_pairs(pairs: Seq<ChainPair>) -> Seq<ChainPair> {
    Seq::new(pairs.len(), |k: int| (pairs[k].1, pairs[k].0))
}

/// Whether two lines meet does not depend on which of them is taken first.
pub proof fn lemma_lines_meet_symmetric(pairs: Seq<ChainPair>, in_self: PairTest, in_other: PairTest, meets: PairTest)
    ensures
        lines_meet(swapped_pairs(pairs), in_other, in_self, |g: usize, e: usize| meets(e, g)) == lines_meet(
            pairs,
            in_self,
            in_other,
            meets,
        ),
{
    let back = swapped_pairs(pairs);
    let flipped = |g: usize, e: usize| meets(e, g);
    assert forall|k: int, e: usize, g: usize|
        in_range_of(back, in_other, in_self, k, g, e) == #[trigger] in_range_of(pairs, in_self, in_other, k, e, g) by {}
    if lines_meet(pairs, in_self, in_other, meets) {
        let (k, e, g) = choose|k: int, e: usize, g: usize| #[trigger]
            in_range_of(pairs, in_self, in_other, k, e, g) && meets(e, g);
        assert(in_range_of(back, in_other, in_self, k, g, e) && flipped(g, e));
    }
    if lines_meet(back, in_other, in_self, flipped) {
        let (k, g, e) = choose|k: int, g: usize, e: usize| #[trigger]
            in_range_of(back, in_other, in_self, k, g, e) && flipped(g, e);
        assert(in_range_of(pairs, in_self, in_other, k, e, g) && meets(e, g));
    }
}

} // verus!
