use vstd::prelude::*;
use crate::mono::{MonoSpan, NULL_INDEX};

verus! {

/// Sequences with fewer vertices than this are kept as a single chain.
pub const MINI_MONO_SIZE: usize = 8;

/// Direction of a coordinate delta along one axis.  `Non` is the direction
/// of a chain that has not seen an edge yet.
#[derive(Copy, Clone, Debug, PartialEq, Eq, Structural)]
pub enum Sign {
    Pos,
    Zero,
    Neg,
    Non,
}

impl Sign {
    /// Whether this is the direction of a chain without an edge.
    pub fn is_non(&self) -> (r: bool)
        ensures
            r == (*self == Sign::Non),
    {
        match self {
            Sign::Non => true,
            _ => false,
        }
    }

    /// Whether both directions are the same.
    pub fn is_same(&self, other: &Sign) -> (r: bool)
        ensures
            r == (*self == *other),
    {
        *self == *other
    }

    /// The direction of the negated delta.
    pub open spec fn flipped(self) -> Sign {
        match self {
            Sign::Pos => Sign::Neg,
            Sign::Neg => Sign::Pos,
            other => other,
        }
    }
}

/// The direction pair of one edge: its sign along x, then along y.
pub type Direction = (Sign, Sign);

/// `floor(log2(m))` for `m >= 1`, and 0 for `m == 0`.
pub open spec fn floor_log2(m: nat) -> nat
    decreases m,
{
    if m <= 1 {
        0
    } else {
        1 + floor_log2(m / 2)
    }
}

/// 2 to the power `e`.
pub open spec fn two_pow(e: nat) -> nat
    decreases e,
{
    if e == 0 {
        1
    } else {
        2 * two_pow((e - 1) as nat)
    }
}

/// `floor_log2(m)` is the exponent of the largest power of two that does
/// not exceed `m`.
pub proof fn lemma_floor_log2_bracket(m: nat)
    requires
        m >= 1,
    ensures
        two_pow(floor_log2(m)) <= m < 2 * two_pow(floor_log2(m)),
    decreases m,
{
    if m > 1 {
        lemma_floor_log2_bracket(m / 2);
    }
}

/// The cap on the number of edges of one chain in a sequence of `n`
/// vertices: `floor(log2(n + 1))`.
pub fn mono_limit(n: usize) -> (r: usize)
    requires
        n < usize::MAX,
    ensures
        r == floor_log2((n + 1) as nat),
{
    let mut rest: usize = n + 1;
    let mut r: usize = 0;
    while rest > 1
        invariant
            r + floor_log2(rest as nat) == floor_log2((n + 1) as nat),
            r + rest <= n + 1,
        decreases rest,
    {
        rest = rest / 2;
        r = r + 1;
    }
    r
}

/// Extends a chain span and the root span.
///
/// With `j` unset the chain's far end moves to vertex `i`; otherwise the
/// chain is set to `i ..= j`.  The root span takes over the chain's ends
/// while it is unset itself, and afterwards only follows the furthest end
/// seen.  An unset `i` changes nothing.
pub fn xy_mono_box(mbox: &mut MonoSpan, root: &mut MonoSpan, i: usize, j: usize)
    ensures
        i == NULL_INDEX ==> *final(mbox) == *old(mbox) && *final(root) == *old(root),
        i != NULL_INDEX && j == NULL_INDEX ==> *final(mbox) == (MonoSpan { i: old(mbox).i, j: i }),
        i != NULL_INDEX && j != NULL_INDEX ==> *final(mbox) == (MonoSpan { i, j }),
        i != NULL_INDEX && old(root).i == NULL_INDEX ==> *final(root) == *final(mbox),
        i != NULL_INDEX && old(root).i != NULL_INDEX ==> final(root).i == old(root).i,
        i != NULL_INDEX && old(root).i != NULL_INDEX && final(mbox).j > old(root).j ==> final(root).j
            == final(mbox).j,
        i != NULL_INDEX && old(root).i != NULL_INDEX && final(mbox).j <= old(root).j ==> final(root).j
            == old(root).j,
{
    if i != NULL_INDEX {
        if j == NULL_INDEX {
            mbox.j = i;
        } else {
            mbox.i = i;
            mbox.j = j;
        }
        if root.i == NULL_INDEX {
            root.i = mbox.i;
            root.j = mbox.j;
        } else {
            if mbox.j > root.j {
                root.j = mbox.j;
            }
        }
    }
}

/// No edge carries the unset direction.
pub open spec fn directions_set(dirs: Seq<Direction>) -> bool {
    forall|e: int| 0 <= e < dirs.len() ==> (#[trigger] dirs[e]).0 != Sign::Non && dirs[e].1 != Sign::Non
}

/// Span `k` ends at the vertex where span `k + 1` starts.
pub open spec fn joined(chains: Seq<MonoSpan>, k: int) -> bool {
    chains[k].j == chains[k + 1].i
}

/// The spans tile the vertices `0 ..= n - 1`: the first starts at 0, the
/// last ends at `n - 1`, and each span starts at the vertex where the one
/// before it ends.  Where there is an edge at all, every span holds one.
pub open spec fn tiles(chains: Seq<MonoSpan>, n: nat) -> bool {
    &&& n >= 1
    &&& chains.len() >= 1
    &&& chains[0].i == 0
    &&& chains[chains.len() - 1].j == n - 1
    &&& forall|k: int| 0 <= k < chains.len() ==> (#[trigger] chains[k]).i <= chains[k].j
    &&& n >= 2 ==> forall|k: int| 0 <= k < chains.len() ==> (#[trigger] chains[k]).i < chains[k].j
    &&& forall|k: int| 0 <= k < chains.len() - 1 ==> #[trigger] joined(chains, k)
}

/// Every edge of the span runs in the direction of the span's first edge.
pub open spec fn is_monotone(dirs: Seq<Direction>, c: MonoSpan) -> bool {
    forall|e: int| c.i <= e < c.j ==> #[trigger] dirs[e] == dirs[c.i as int]
}

/// The direction along one axis of a chain that ran in `prev` and is
/// joined by an edge that runs in `cur`: the chain keeps the direction it
/// has, and takes the edge's while it has none.
pub open spec fn taken(prev: Sign, cur: Sign) -> Sign {
    if prev == Sign::Non {
        cur
    } else {
        prev
    }
}

/// The direction that the edges `s .. e` give a chain.
pub open spec fn heading(dirs: Seq<Direction>, s: int, e: int) -> Direction
    decreases e - s,
{
    if e <= s {
        (Sign::Non, Sign::Non)
    } else {
        let h = heading(dirs, s, e - 1);
        (taken(h.0, dirs[e - 1].0), taken(h.1, dirs[e - 1].1))
    }
}

/// Edge `e` fits the chain that starts with edge `s`: along each axis it
/// runs in the direction of the chain, or the chain has none yet.  A
/// direction of zero is fitted by zero only.
pub open spec fn fits(dirs: Seq<Direction>, s: int, e: int) -> bool {
    let h = heading(dirs, s, e);
    taken(h.0, dirs[e].0) == dirs[e].0 && taken(h.1, dirs[e].1) == dirs[e].1
}

/// Every edge of the span fits the chain that the edges before it make.
pub open spec fn follows(dirs: Seq<Direction>, c: MonoSpan) -> bool {
    forall|e: int| c.i <= e < c.j ==> #[trigger] fits(dirs, c.i as int, e)
}

/// The spans are the monotone chains of a sequence whose edges run in the
/// directions `dirs`, with at most `limit` edges to a chain.
///
/// They tile the vertices, the edges of each fit together and are within
/// the limit, and each span but the last is as long as it can be: either it
/// is at the limit, or the edge after it does not fit.
pub open spec fn is_chain_partition(dirs: Seq<Direction>, limit: nat, chains: Seq<MonoSpan>) -> bool {
    &&& tiles(chains, dirs.len() + 1)
    &&& forall|k: int| 0 <= k < chains.len() ==> (#[trigger] chains[k]).edges() <= limit
    &&& forall|k: int| 0 <= k < chains.len() ==> follows(dirs, #[trigger] chains[k])
    &&& forall|k: int|
        0 <= k < chains.len() - 1 ==> (#[trigger] chains[k]).edges() == limit || !fits(
            dirs,
            chains[k].i as int,
            chains[k].j as int,
        )
}

/// Splits a coordinate sequence into monotone chains.
///
/// `dirs[e]` is the direction of the edge from vertex `e` to vertex
/// `e + 1`, so the sequence has `dirs.len() + 1` vertices.  Returns the span
/// of the whole sequence and the spans of its chains, in order.  A sequence
/// of fewer than `MINI_MONO_SIZE` vertices is one chain.
pub fn process_chains(dirs: &Vec<Direction>) -> (r: (MonoSpan, Vec<MonoSpan>))
    requires
        dirs.len() + 2 <= usize::MAX,
    ensures
        r.0 == (MonoSpan { i: 0, j: dirs.len() }),
        tiles(r.1@, (dirs.len() + 1) as nat),
        dirs.len() + 1 < MINI_MONO_SIZE ==> r.1@ == seq![MonoSpan { i: 0, j: dirs.len() }],
        dirs.len() + 1 >= MINI_MONO_SIZE ==> is_chain_partition(
            dirs@,
            floor_log2((dirs.len() + 2) as nat),
            r.1@,
        ),
        dirs.len() + 1 >= MINI_MONO_SIZE && directions_set(dirs@) ==> forall|k: int|
            0 <= k < r.1.len() ==> is_monotone(dirs@, #[trigger] r.1[k]),
{
    let j: usize = dirs.len();
    let n: usize = j + 1;
    if n < MINI_MONO_SIZE {
        let o = MonoSpan::new_mono_ij(0, j);
        let mut chains: Vec<MonoSpan> = Vec::new();
        chains.push(o);
        assert(chains@ =~= seq![o]);
        return (o, chains);
    }
    let mono_limit: usize = mono_limit(n);
    proof {
        lemma_floor_log2_monotone(9, (n + 1) as nat);
        assert(floor_log2(9) == 3) by {
            reveal_with_fuel(floor_log2, 5);
        }
    }
    let mut prev_x = Sign::Non;
    let mut prev_y = Sign::Non;

    let mut chains: Vec<MonoSpan> = Vec::new();
    let mut root = MonoSpan::new_mono();
    let mut mbox = root;
    xy_mono_box(&mut mbox, &mut root, 0, 0);
    chains.push(mbox);

    let mut mono_size: usize = 0;
    let mut m_index: usize = chains.len() - 1;

    let mut i: usize = 1;
    while i <= j
        invariant
            j == dirs.len(),
            j + 2 <= usize::MAX,
            1 <= i <= j + 1,
            3 <= mono_limit == floor_log2((j + 2) as nat),
            root == (MonoSpan { i: 0, j: (i - 1) as usize }),
            chains.len() >= 1,
            m_index == chains.len() - 1,
            tiles(chains@, i as nat),
            mono_size == chains[m_index as int].edges(),
            (prev_x, prev_y) == heading(dirs@, chains[m_index as int].i as int, i - 1),
            forall|k: int| 0 <= k < chains.len() ==> (#[trigger] chains[k]).edges() <= mono_limit,
            forall|k: int| 0 <= k < chains.len() ==> follows(dirs@, #[trigger] chains[k]),
            forall|k: int|
                0 <= k < chains.len() - 1 ==> (#[trigger] chains[k]).edges() == mono_limit || !fits(
                    dirs@,
                    chains[k].i as int,
                    chains[k].j as int,
                ),
        decreases j + 1 - i,
    {
        let cur_x = dirs[i - 1].0;
        let cur_y = dirs[i - 1].1;
        let ghost start = chains[m_index as int].i as int;
        assert(heading(dirs@, start, i as int) == (taken(prev_x, cur_x), taken(prev_y, cur_y)));

        if prev_x.is_non() {
            prev_x = cur_x;
        }
        if prev_y.is_non() {
            prev_y = cur_y;
        }
        mono_size += 1;
        let ghost before = chains@;
        if prev_x.is_same(&cur_x) && prev_y.is_same(&cur_y) && mono_size <= mono_limit {
            let mut cur = chains[m_index];
            xy_mono_box(&mut cur, &mut root, i, NULL_INDEX);
            chains.set(m_index, cur);
            proof {
                assert forall|k: int| 0 <= k < chains.len() implies follows(
                    dirs@,
                    #[trigger] chains[k],
                ) by {
                    assert(follows(dirs@, before[k]));
                    if k < m_index {
                        assert(chains[k] == before[k]);
                    }
                }
                assert forall|k: int| 0 <= k < chains.len() - 1 implies #[trigger] joined(
                    chains@,
                    k,
                ) by {
                    assert(joined(before, k));
                }
                assert forall|k: int| 0 <= k < chains.len() implies (#[trigger] chains[k]).i
                    < chains[k].j by {
                    if k < m_index {
                        assert(chains[k] == before[k]);
                    }
                }
            }
        } else {
            mono_size = 1;
            prev_x = cur_x;
            prev_y = cur_y;
            mbox = MonoSpan::new_mono();
            xy_mono_box(&mut mbox, &mut root, i - 1, i);
            chains.push(mbox);
            m_index = chains.len() - 1;
            proof {
                assert(heading(dirs@, i - 1, i - 1) == (Sign::Non, Sign::Non));
                assert(heading(dirs@, i - 1, i as int) == (cur_x, cur_y));
                assert(fits(dirs@, i - 1, i - 1));
                assert forall|k: int| 0 <= k < chains.len() implies follows(
                    dirs@,
                    #[trigger] chains[k],
                ) by {
                    if k < m_index {
                        assert(chains[k] == before[k]);
                    }
                }
                assert forall|k: int| 0 <= k < chains.len() - 1 implies #[trigger] joined(
                    chains@,
                    k,
                ) by {
                    if k < m_index - 1 {
                        assert(joined(before, k));
                    }
                }
                assert forall|k: int| 0 <= k < chains.len() implies (#[trigger] chains[k]).i
                    < chains[k].j by {
                    if k < m_index {
                        assert(chains[k] == before[k]);
                    }
                }
                assert forall|k: int| 0 <= k < chains.len() - 1 implies (#[trigger] chains[k]).edges()
                    == mono_limit || !fits(dirs@, chains[k].i as int, chains[k].j as int) by {
                    assert(chains[k] == before[k]);
                }
            }
        }
        i += 1;
    }
    proof {
        if directions_set(dirs@) {
            assert forall|k: int| 0 <= k < chains.len() implies is_monotone(dirs@, #[trigger] chains[k]) by {
                lemma_tiles_ends_ordered(chains@, (j + 1) as nat, k, chains.len() - 1);
                assert(follows(dirs@, chains[k]));
                lemma_set_directions_fit_when_equal(dirs@, chains[k]);
            }
        }
    }
    (root, chains)
}

/// `floor_log2` never decreases as its argument grows.
pub proof fn lemma_floor_log2_monotone(a: nat, b: nat)
    requires
        a <= b,
    ensures
        floor_log2(a) <= floor_log2(b),
    decreases b,
{
    if a > 1 {
        lemma_floor_log2_monotone(a / 2, b / 2);
    }
}

/// In a tiling the spans come in order: the ends never decrease.
proof fn lemma_tiles_ends_ordered(chains: Seq<MonoSpan>, n: nat, k: int, l: int)
    requires
        tiles(chains, n),
        0 <= k <= l < chains.len(),
    ensures
        chains[k].j <= chains[l].j,
        k < l ==> chains[k].j <= chains[l].i,
        k < l && n >= 2 ==> chains[k].j < chains[l].j,
        k + 1 < l && n >= 2 ==> chains[k].j < chains[l].i,
    decreases l - k,
{
    if k < l {
        lemma_tiles_ends_ordered(chains, n, k, l - 1);
        assert(joined(chains, l - 1));
        assert(chains[l].i <= chains[l].j);
        assert(chains[l - 1].i <= chains[l - 1].j);
        if n >= 2 {
            assert(chains[l].i < chains[l].j);
            assert(chains[l - 1].i < chains[l - 1].j);
        }
    }
}

/// The chains of a sequence are contiguous and overlap in nothing but the
/// vertex that two neighbours share.
///
/// Of two chains the earlier one ends no later than the later one starts;
/// it ends exactly there when the two are neighbours, and strictly before
/// when they are not (in a sequence that has an edge).
pub proof fn lemma_chains_overlap_only_at_joints(chains: Seq<MonoSpan>, n: nat, k: int, l: int)
    requires
        tiles(chains, n),
        0 <= k < l < chains.len(),
    ensures
        chains[k].j <= chains[l].i,
        l == k + 1 ==> chains[k].j == chains[l].i,
        l > k + 1 && n >= 2 ==> chains[k].j < chains[l].i,
{
    lemma_tiles_ends_ordered(chains, n, k, l);
    assert(joined(chains, k));
}

/// The chains of a sequence cover it: every vertex `0 ..= n - 1` lies in
/// some chain.
pub proof fn lemma_chains_cover(chains: Seq<MonoSpan>, n: nat, v: int)
    requires
        tiles(chains, n),
        0 <= v < n,
    ensures
        exists|k: int| 0 <= k < chains.len() && (#[trigger] chains[k]).holds(v),
{
    lemma_cover_from(chains, n, v, 0);
}

proof fn lemma_cover_from(chains: Seq<MonoSpan>, n: nat, v: int, k: int)
    requires
        tiles(chains, n),
        0 <= v < n,
        0 <= k < chains.len(),
        chains[k].i <= v,
    ensures
        exists|l: int| 0 <= l < chains.len() && (#[trigger] chains[l]).holds(v),
    decreases chains.len() - k,
{
    if v <= chains[k].j {
        assert(chains[k].holds(v));
    } else {
        assert(k < chains.len() - 1);
        assert(joined(chains, k));
        lemma_cover_from(chains, n, v, k + 1);
    }
}

/// The directions and the limit determine the chains: two partitions of
/// one sequence under one limit are the same.
pub proof fn lemma_chain_partition_unique(
    dirs: Seq<Direction>,
    limit: nat,
    a: Seq<MonoSpan>,
    b: Seq<MonoSpan>,
)
    requires
        limit >= 1,
        is_chain_partition(dirs, limit, a),
        is_chain_partition(dirs, limit, b),
    ensures
        a == b,
{
    lemma_partitions_agree(dirs, limit, a, b, 0);
    assert(a =~= b);
}

/// Two partitions that agree on where span `k` starts agree from there on.
proof fn lemma_partitions_agree(
    dirs: Seq<Direction>,
    limit: nat,
    a: Seq<MonoSpan>,
    b: Seq<MonoSpan>,
    k: int,
)
    requires
        limit >= 1,
        is_chain_partition(dirs, limit, a),
        is_chain_partition(dirs, limit, b),
        0 <= k < a.len(),
        k < b.len(),
        a[k].i == b[k].i,
        forall|l: int| 0 <= l < k ==> a[l] == b[l],
    ensures
        a.len() == b.len(),
        forall|l: int| 0 <= l < a.len() ==> a[l] == b[l],
    decreases a.len() - k,
{
    let n = dirs.len() + 1;
    lemma_span_end_agrees(dirs, limit, a, b, k);
    lemma_span_end_agrees(dirs, limit, b, a, k);
    assert(a[k] == b[k]);
    if k == a.len() - 1 {
        if k < b.len() - 1 {
            lemma_last_span_is_last(dirs, limit, b, k);
        }
    } else if k == b.len() - 1 {
        lemma_last_span_is_last(dirs, limit, a, k);
    } else {
        assert(joined(a, k));
        assert(joined(b, k));
        lemma_partitions_agree(dirs, limit, a, b, k + 1);
    }
}

/// A span that reaches the last vertex is the last span.
proof fn lemma_last_span_is_last(dirs: Seq<Direction>, limit: nat, c: Seq<MonoSpan>, k: int)
    requires
        limit >= 1,
        is_chain_partition(dirs, limit, c),
        0 <= k < c.len(),
        c[k].j == dirs.len(),
    ensures
        k == c.len() - 1,
{
    let n = (dirs.len() + 1) as nat;
    if k < c.len() - 1 {
        assert(joined(c, k));
        if n >= 2 {
            assert(c[k + 1].i < c[k + 1].j);
            lemma_tiles_ends_ordered(c, n, k + 1, c.len() - 1);
        } else {
            assert(c[k].i <= c[k].j);
            assert(c[k].edges() == 0);
            assert(heading(dirs, c[k].i as int, c[k].j as int) == (Sign::Non, Sign::Non));
        }
    }
}

/// Span `k` of `a` does not end before span `k` of `b` when both start at
/// the same vertex.
proof fn lemma_span_end_agrees(
    dirs: Seq<Direction>,
    limit: nat,
    a: Seq<MonoSpan>,
    b: Seq<MonoSpan>,
    k: int,
)
    requires
        is_chain_partition(dirs, limit, a),
        is_chain_partition(dirs, limit, b),
        0 <= k < a.len(),
        k < b.len(),
        a[k].i == b[k].i,
    ensures
        a[k].j >= b[k].j,
{
    let n = (dirs.len() + 1) as nat;
    if a[k].j < b[k].j {
        lemma_tiles_ends_ordered(b, n, k, b.len() - 1);
        if k == a.len() - 1 {
            assert(a[k].j == n - 1);
            assert(b[k].j <= n - 1);
        } else {
            assert(b[k].edges() <= limit);
            assert(a[k].edges() < limit);
            assert(follows(dirs, b[k]));
            assert(a[k].i <= a[k].j);
            assert(fits(dirs, b[k].i as int, a[k].j as int));
        }
    }
}

/// Once a chain has an edge with both directions set, it runs in that
/// edge's direction for good.
proof fn lemma_heading_is_first_direction(dirs: Seq<Direction>, s: int, e: int)
    requires
        s < e,
        dirs[s].0 != Sign::Non,
        dirs[s].1 != Sign::Non,
    ensures
        heading(dirs, s, e) == dirs[s],
    decreases e - s,
{
    if e > s + 1 {
        lemma_heading_is_first_direction(dirs, s, e - 1);
    } else {
        assert(heading(dirs, s, s) == (Sign::Non, Sign::Non));
    }
}

/// Where no edge carries the unset direction, the edges of a chain fit
/// together exactly when they all run in the direction of the first, and an
/// edge fails to fit a chain exactly when it runs in another direction.
pub proof fn lemma_set_directions_fit_when_equal(dirs: Seq<Direction>, c: MonoSpan)
    requires
        directions_set(dirs),
        c.i < c.j <= dirs.len(),
    ensures
        follows(dirs, c) <==> is_monotone(dirs, c),
        c.j < dirs.len() ==> (fits(dirs, c.i as int, c.j as int) <==> dirs[c.j as int] == dirs[c.i as int]),
{
    let s = c.i as int;
    assert forall|e: int| s <= e <= c.j && e < dirs.len() implies (#[trigger] fits(dirs, s, e) <==> dirs[e]
        == dirs[s]) by {
        if e > s {
            lemma_heading_is_first_direction(dirs, s, e);
        } else {
            assert(heading(dirs, s, s) == (Sign::Non, Sign::Non));
        }
    }
    if follows(dirs, c) {
        assert forall|e: int| c.i <= e < c.j implies #[trigger] dirs[e] == dirs[c.i as int] by {
            assert(fits(dirs, s, e));
        }
    }
    if is_monotone(dirs, c) {
        assert forall|e: int| c.i <= e < c.j implies #[trigger] fits(dirs, c.i as int, e) by {
            assert(dirs[e] == dirs[s]);
        }
    }
}

} // verus!
