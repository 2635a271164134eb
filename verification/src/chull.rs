use vstd::prelude::*;

verus! {

/// A turn test on numbered points: `p(a, b, c)` holds when point `c` lies
/// on or to the right of the line that runs from point `a` through point
/// `b`.
pub type TurnTest = spec_fn(usize, usize, usize) -> bool;

/// `f` can be asked about every triple of points below `n`.
pub open spec fn accepts<F: Fn(usize, usize, usize) -> bool>(f: F, n: nat) -> bool {
    forall|a: usize, b: usize, c: usize| a < n && b < n && c < n ==> #[trigger] call_requires(f, (a, b, c))
}

/// `p` tells what `f` answers on every triple of points below `n`.
pub open spec fn describes<F: Fn(usize, usize, usize) -> bool>(p: TurnTest, f: F, n: nat) -> bool {
    forall|a: usize, b: usize, c: usize, r: bool|
        a < n && b < n && c < n && #[trigger] call_ensures(f, (a, b, c), r) ==> r == p(a, b, c)
}

/// All points of the sequence are below `n`.
pub open spec fn below(order: Seq<usize>, n: nat) -> bool {
    forall|k: int| 0 <= k < order.len() ==> #[trigger] order[k] < n
}

/// `stack` without the points at its end that candidate `c` makes
/// redundant: the last point goes as long as `c` is on or to the right of
/// the line through the last two.
pub open spec fn trimmed(p: TurnTest, stack: Seq<usize>, c: usize) -> Seq<usize>
    decreases stack.len(),
{
    if stack.len() >= 2 && p(stack[stack.len() - 2], stack[stack.len() - 1], c) {
        trimmed(p, stack.drop_last(), c)
    } else {
        stack
    }
}

/// The boundary run over the points `order`, taken in that order: each
/// point in turn trims the run built so far and is then added to it.
pub open spec fn boundary(p: TurnTest, order: Seq<usize>) -> Seq<usize>
    decreases order.len(),
{
    if order.len() == 0 {
        Seq::empty()
    } else {
        trimmed(p, boundary(p, order.drop_last()), order.last()).push(order.last())
    }
}

/// The run turns strictly left at every inner point.
pub open spec fn turns_left_throughout(p: TurnTest, run: Seq<usize>) -> bool {
    forall|k: int|
        0 <= k && k + 2 < run.len() ==> !#[trigger] p(run[k], run[k + 1], run[k + 2])
}

/// The points `0, 1, .., n - 1`.
pub open spec fn ascending(n: nat) -> Seq<usize> {
    Seq::new(n, |k: int| k as usize)
}

/// The points `n - 1, .., 1, 0`.
pub open spec fn descending(n: nat) -> Seq<usize> {
    Seq::new(n, |k: int| (n - 1 - k) as usize)
}

/// The convex hull of `n` sorted points: all of them where there are fewer
/// than three; otherwise the run over the points from first to last
/// followed by the run from last to first, each without its final point,
/// which the other run starts with.
pub open spec fn hull_of(p: TurnTest, n: nat) -> Seq<usize> {
    if n < 3 {
        ascending(n)
    } else {
        boundary(p, ascending(n)).drop_last() + boundary(p, descending(n)).drop_last()
    }
}

/// Builds one boundary run over the points `order`.
///
/// The points are numbered below `n`, and `on_or_right(a, b, c)` tells
/// whether point `c` is on or to the right of the line from `a` through `b`.
/// Whatever turn test describes the answers of `on_or_right`, the result is
/// the boundary run under that test.
pub fn build_hull<F: Fn(usize, usize, usize) -> bool>(n: usize, order: &Vec<usize>, on_or_right: &F) -> (hb:
    Vec<usize>)
    requires
        below(order@, n as nat),
        accepts(*on_or_right, n as nat),
    ensures
        below(hb@, n as nat),
        forall|p: TurnTest| #[trigger] describes(p, *on_or_right, n as nat) ==> hb@ == boundary(p, order@),
{
    let mut hb: Vec<usize> = Vec::new();
    let mut i: usize = 0;
    while i < order.len()
        invariant
            i <= order.len(),
            below(order@, n as nat),
            below(hb@, n as nat),
            accepts(*on_or_right, n as nat),
            forall|p: TurnTest| #[trigger]
                describes(p, *on_or_right, n as nat) ==> hb@ == boundary(p, order@.take(i as int)),
        decreases order.len() - i,
    {
        let pt = order[i];
        let ghost start = hb@;
        let mut len = hb.len();
        while len >= 2 && on_or_right(hb[len - 2], hb[len - 1], pt)
            invariant
                len == hb.len(),
                pt < n,
                below(hb@, n as nat),
                accepts(*on_or_right, n as nat),
                forall|p: TurnTest| #[trigger]
                    describes(p, *on_or_right, n as nat) ==> trimmed(p, hb@, pt) == trimmed(p, start, pt),
            decreases len,
        {
            proof {
                let full = hb@;
                assert(call_ensures(*on_or_right, (full[len - 2], full[len - 1], pt), true));
                assert forall|p: TurnTest| #[trigger]
                    describes(p, *on_or_right, n as nat) implies trimmed(p, full.drop_last(), pt)
                    == trimmed(p, start, pt) by {
                    assert(p(full[len - 2], full[len - 1], pt));
                }
            }
            hb.pop();
            len = hb.len();
        }
        proof {
            let kept = hb@;
            let prefix = order@.take(i + 1);
            assert(prefix.drop_last() =~= order@.take(i as int));
            assert(prefix.last() == pt);
            assert forall|p: TurnTest| #[trigger]
                describes(p, *on_or_right, n as nat) implies kept.push(pt) == boundary(p, prefix) by {
                if len >= 2 {
                    assert(call_ensures(*on_or_right, (kept[len - 2], kept[len - 1], pt), false));
                    assert(!p(kept[len - 2], kept[len - 1], pt));
                }
                assert(trimmed(p, kept, pt) == kept);
            }
        }
        hb.push(pt);
        i += 1;
    }
    assert(order@.take(order.len() as int) =~= order@);
    hb
}

/// Computes the convex hull of `n` points that the caller has sorted,
/// as the positions of the hull's points in that order.
///
/// `on_or_right(a, b, c)` tells whether point `c` is on or to the right of
/// the line from `a` through `b`.  Whatever turn test describes the answers
/// of `on_or_right`, the result is the hull under that test.
pub fn convex_hull<F: Fn(usize, usize, usize) -> bool>(n: usize, on_or_right: F) -> (hull: Vec<usize>)
    requires
        accepts(on_or_right, n as nat),
    ensures
        below(hull@, n as nat),
        forall|p: TurnTest| #[trigger] describes(p, on_or_right, n as nat) ==> hull@ == hull_of(p, n as nat),
{
    let mut pnts: Vec<usize> = Vec::new();
    let mut i: usize = 0;
    while i < n
        invariant
            i <= n,
            pnts@ == ascending(i as nat),
        decreases n - i,
    {
        pnts.push(i);
        i += 1;
        assert(pnts@ =~= ascending(i as nat));
    }
    //trivial case less than three coordinates
    if n < 3 {
        return pnts;
    }
    let mut back: Vec<usize> = Vec::new();
    let mut i: usize = n;
    while i > 0
        invariant
            i <= n,
            back@ == descending(n as nat).take(n - i),
        decreases i,
    {
        i -= 1;
        back.push(i);
        assert(back@ =~= descending(n as nat).take(n - i));
    }
    assert(back@ =~= descending(n as nat));

    let mut lower = build_hull(n, &pnts, &on_or_right);
    let mut upper = build_hull(n, &back, &on_or_right);
    let ghost lower_run = lower@;
    let ghost upper_run = upper@;

    upper.pop();
    lower.pop();

    let ghost head = lower@;
    let mut k: usize = 0;
    while k < upper.len()
        invariant
            k <= upper.len(),
            below(upper@, n as nat),
            below(lower@, n as nat),
            lower@ == head + upper@.take(k as int),
        decreases upper.len() - k,
    {
        lower.push(upper[k]);
        k += 1;
        assert(lower@ =~= head + upper@.take(k as int));
    }
    proof {
        assert(upper@.take(upper.len() as int) =~= upper@);
        assert forall|p: TurnTest| #[trigger] describes(p, on_or_right, n as nat) implies lower@ == hull_of(
            p,
            n as nat,
        ) by {
            lemma_boundary_ends(p, ascending(n as nat));
            lemma_boundary_ends(p, descending(n as nat));
            assert(lower_run == boundary(p, ascending(n as nat)));
            assert(upper_run == boundary(p, descending(n as nat)));
        }
    }
    lower
}

/// Trimming only ever removes points from the end.
proof fn lemma_trimmed_is_prefix(p: TurnTest, stack: Seq<usize>, c: usize)
    ensures
        trimmed(p, stack, c).len() <= stack.len(),
        trimmed(p, stack, c) == stack.take(trimmed(p, stack, c).len() as int),
        stack.len() >= 1 ==> trimmed(p, stack, c).len() >= 1,
        trimmed(p, stack, c).len() >= 2 ==> !p(
            trimmed(p, stack, c)[trimmed(p, stack, c).len() - 2],
            trimmed(p, stack, c)[trimmed(p, stack, c).len() - 1],
            c,
        ),
    decreases stack.len(),
{
    if stack.len() >= 2 && p(stack[stack.len() - 2], stack[stack.len() - 1], c) {
        lemma_trimmed_is_prefix(p, stack.drop_last(), c);
        let t = trimmed(p, stack.drop_last(), c);
        assert(stack.drop_last().take(t.len() as int) =~= stack.take(t.len() as int));
    } else {
        assert(stack.take(stack.len() as int) =~= stack);
    }
}

/// A boundary run starts with the first point it was given and ends with
/// the last.
pub proof fn lemma_boundary_ends(p: TurnTest, order: Seq<usize>)
    requires
        order.len() >= 1,
    ensures
        boundary(p, order).len() >= 1,
        boundary(p, order).first() == order.first(),
        boundary(p, order).last() == order.last(),
    decreases order.len(),
{
    let rest = order.drop_last();
    lemma_trimmed_is_prefix(p, boundary(p, rest), order.last());
    if rest.len() >= 1 {
        lemma_boundary_ends(p, rest);
    }
}

/// A boundary run turns strictly left at each of its inner points.
pub proof fn lemma_boundary_turns_left(p: TurnTest, order: Seq<usize>)
    ensures
        turns_left_throughout(p, boundary(p, order)),
    decreases order.len(),
{
    if order.len() > 0 {
        let rest = boundary(p, order.drop_last());
        let c = order.last();
        lemma_boundary_turns_left(p, order.drop_last());
        lemma_trimmed_is_prefix(p, rest, c);
        let t = trimmed(p, rest, c);
        let run = t.push(c);
        assert forall|k: int| 0 <= k && k + 2 < run.len() implies !#[trigger] p(
            run[k],
            run[k + 1],
            run[k + 2],
        ) by {
            if k + 2 < t.len() {
                assert(!p(rest[k], rest[k + 1], rest[k + 2]));
            }
        }
    }
}

/// A run that already turns strictly left at each inner point is its own
/// boundary run.
pub proof fn lemma_left_turning_run_is_kept(p: TurnTest, run: Seq<usize>)
    requires
        turns_left_throughout(p, run),
    ensures
        boundary(p, run) == run,
    decreases run.len(),
{
    if run.len() > 0 {
        let rest = run.drop_last();
        assert forall|k: int| 0 <= k && k + 2 < rest.len() implies !#[trigger] p(
            rest[k],
            rest[k + 1],
            rest[k + 2],
        ) by {
            assert(!p(run[k], run[k + 1], run[k + 2]));
        }
        lemma_left_turning_run_is_kept(p, rest);
        if rest.len() >= 2 {
            let k = rest.len() - 2;
            assert(!p(run[k], run[k + 1], run[k + 2]));
        }
        assert(trimmed(p, rest, run.last()) == rest);
        assert(rest.push(run.last()) =~= run);
    } else {
        assert(run =~= Seq::empty());
    }
}

/// Building a boundary run over a boundary run changes nothing.
pub proof fn lemma_boundary_idempotent(p: TurnTest, order: Seq<usize>)
    ensures
        boundary(p, boundary(p, order)) == boundary(p, order),
{
    lemma_boundary_turns_left(p, order);
    lemma_left_turning_run_is_kept(p, boundary(p, order));
}

/// Position `k` of `run` is found in `order` at position `at[k]`, and the
/// positions rise along the run.
pub open spec fn embeds(run: Seq<usize>, order: Seq<usize>, at: Seq<int>) -> bool {
    &&& at.len() == run.len()
    &&& forall|k: int| 0 <= k < run.len() ==> 0 <= #[trigger] at[k] < order.len() && order[at[k]] == run[k]
    &&& forall|k: int, l: int| 0 <= k < l < run.len() ==> at[k] < at[l]
}

/// A boundary run picks its points from the points it was given and keeps
/// them in their order.
pub proof fn lemma_boundary_keeps_order(p: TurnTest, order: Seq<usize>) -> (at: Seq<int>)
    ensures
        embeds(boundary(p, order), order, at),
    decreases order.len(),
{
    if order.len() == 0 {
        Seq::empty()
    } else {
        let rest = order.drop_last();
        let before = lemma_boundary_keeps_order(p, rest);
        let run = boundary(p, rest);
        lemma_trimmed_is_prefix(p, run, order.last());
        let t = trimmed(p, run, order.last());
        let at = before.take(t.len() as int).push(order.len() - 1);
        assert forall|k: int| 0 <= k < t.len() + 1 implies 0 <= #[trigger] at[k] < order.len() && order[at[k]]
            == t.push(order.last())[k] by {
            if k < t.len() {
                assert(at[k] == before[k]);
                assert(rest[before[k]] == run[k]);
            }
        }
        assert forall|k: int, l: int| 0 <= k < l < t.len() + 1 implies at[k] < at[l] by {
            assert(at[k] == before[k]);
            if l < t.len() {
                assert(at[l] == before[l]);
            }
        }
        at
    }
}

/// The two runs of a hull close up: the run over the points from first to
/// last starts at the first point and ends at the last, the run back does
/// the opposite, so each run starts where the other ends.
pub proof fn lemma_hull_runs_meet(p: TurnTest, n: nat)
    requires
        3 <= n <= usize::MAX,
    ensures
        boundary(p, ascending(n)).first() == 0,
        boundary(p, ascending(n)).last() == n - 1,
        boundary(p, descending(n)).first() == n - 1,
        boundary(p, descending(n)).last() == 0,
        hull_of(p, n).len() >= 2,
        hull_of(p, n)[0] == 0,
{
    lemma_boundary_ends(p, ascending(n));
    lemma_boundary_ends(p, descending(n));
}

} // verus!
