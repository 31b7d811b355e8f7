//! The mathematical model of the breadth-first search.
//!
//! The generating set is modelled as a sequence of inverse-transformation
//! tables, one per move, in move-list order. `reach` is the set of patterns
//! reachable from the start pattern in at most `d` move applications;
//! `frontier` is the set of patterns whose least distance is exactly `d`.
//! The search engine's contracts are stated over these functions.

use vstd::prelude::*;
use vstd::set_lib::lemma_len_subset;

verus! {

/// Every table covers a pattern space of `n` patterns and stays inside it.
pub open spec fn tables_bounded(mvs: Seq<Seq<usize>>, n: nat) -> bool {
    &&& forall|i: int| 0 <= i < mvs.len() ==> (#[trigger] mvs[i]).len() == n
    &&& forall|i: int, p: int| 0 <= i < mvs.len() && 0 <= p < n ==> (#[trigger] mvs[i][p]) < n
}

/// Pattern `s` arises from pattern `p` by one move of the generating set.
pub open spec fn is_successor(mvs: Seq<Seq<usize>>, p: usize, s: usize) -> bool {
    exists|i: int| 0 <= i < mvs.len() && s == (#[trigger] mvs[i])[p as int]
}

/// Every pattern one move away from some pattern of the given set.
pub open spec fn expand(mvs: Seq<Seq<usize>>, patterns: Set<usize>) -> Set<usize> {
    Set::new(
        |s: usize| exists|p: usize| patterns.contains(p) && #[trigger] is_successor(mvs, p, s),
    )
}

/// The patterns reachable from `start` in at most `d` move applications.
pub open spec fn reach(mvs: Seq<Seq<usize>>, start: usize, d: nat) -> Set<usize>
    decreases d,
{
    if d == 0 {
        set![start]
    } else {
        reach(mvs, start, (d - 1) as nat).union(expand(mvs, reach(mvs, start, (d - 1) as nat)))
    }
}

/// The patterns reachable from `start` in any number of move applications.
pub open spec fn reachable(mvs: Seq<Seq<usize>>, start: usize, s: usize) -> bool {
    exists|d: nat| reach(mvs, start, d).contains(s)
}

/// The patterns whose least distance from `start` is exactly `d`.
pub open spec fn frontier(mvs: Seq<Seq<usize>>, start: usize, d: nat) -> Set<usize> {
    if d == 0 {
        set![start]
    } else {
        reach(mvs, start, d).difference(reach(mvs, start, (d - 1) as nat))
    }
}

/// `d` is the least number of move applications that reaches `s`.
pub open spec fn depth_exact(mvs: Seq<Seq<usize>>, start: usize, s: usize, d: nat) -> bool {
    &&& reach(mvs, start, d).contains(s)
    &&& d > 0 ==> !reach(mvs, start, (d - 1) as nat).contains(s)
}

/// The pattern space: every pattern index below `n`.
pub open spec fn below(n: nat) -> Set<usize> {
    Set::new(|s: usize| (s as nat) < n)
}

/// A full distance table: it holds exactly the reachable patterns, each at
/// its least distance from the start pattern.
pub open spec fn distance_table_correct(
    mvs: Seq<Seq<usize>>,
    start: usize,
    t: Map<usize, usize>,
) -> bool {
    &&& forall|s: usize| #[trigger] t.contains_key(s) <==> reachable(mvs, start, s)
    &&& forall|s: usize| #[trigger]
        t.contains_key(s) ==> depth_exact(mvs, start, s, t[s] as nat)
}

/// Reach sets grow with the distance bound.
pub proof fn lemma_reach_monotone(mvs: Seq<Seq<usize>>, start: usize, d1: nat, d2: nat)
    requires
        d1 <= d2,
    ensures
        reach(mvs, start, d1).subset_of(reach(mvs, start, d2)),
    decreases d2,
{
    if d1 < d2 {
        lemma_reach_monotone(mvs, start, d1, (d2 - 1) as nat);
    }
}

/// Everything reachable lies inside the pattern space.
pub proof fn lemma_reach_bounded(mvs: Seq<Seq<usize>>, start: usize, n: nat, d: nat)
    requires
        tables_bounded(mvs, n),
        (start as nat) < n,
    ensures
        reach(mvs, start, d).subset_of(below(n)),
    decreases d,
{
    if d > 0 {
        lemma_reach_bounded(mvs, start, n, (d - 1) as nat);
        assert forall|s: usize| expand(mvs, reach(mvs, start, (d - 1) as nat)).contains(s)
            implies below(n).contains(s) by {
            let p = choose|p: usize|
                reach(mvs, start, (d - 1) as nat).contains(p) && #[trigger] is_successor(
                    mvs,
                    p,
                    s,
                );
            let i = choose|i: int| 0 <= i < mvs.len() && s == (#[trigger] mvs[i])[p as int];
            assert(below(n).contains(p));
            assert(mvs[i][p as int] < n);
        }
    }
}

/// The pattern space is finite, with one element per index.
pub proof fn lemma_below_finite(n: nat)
    requires
        n <= usize::MAX,
    ensures
        below(n).finite(),
        below(n).len() == n,
    decreases n,
{
    if n == 0 {
        assert(below(0) =~= Set::<usize>::empty());
    } else {
        lemma_below_finite((n - 1) as nat);
        assert(below(n) =~= below((n - 1) as nat).insert((n - 1) as usize));
    }
}

/// Reach sets are finite and no larger than the pattern space.
pub proof fn lemma_reach_finite(mvs: Seq<Seq<usize>>, start: usize, n: nat, d: nat)
    requires
        tables_bounded(mvs, n),
        (start as nat) < n,
        n <= usize::MAX,
    ensures
        reach(mvs, start, d).finite(),
        reach(mvs, start, d).len() <= n,
{
    lemma_reach_bounded(mvs, start, n, d);
    lemma_below_finite(n);
    lemma_len_subset(reach(mvs, start, d), below(n));
}

/// Once one expansion step adds nothing, no later step ever adds anything:
/// a reach set equal to its successor is the whole reachable set.
pub proof fn lemma_reach_stabilizes(mvs: Seq<Seq<usize>>, start: usize, d: nat, e: nat)
    requires
        reach(mvs, start, (d + 1) as nat) == reach(mvs, start, d),
        d <= e,
    ensures
        reach(mvs, start, e) == reach(mvs, start, d),
    decreases e,
{
    if e > d + 1 {
        lemma_reach_stabilizes(mvs, start, d, (e - 1) as nat);
        assert(reach(mvs, start, e) == reach(mvs, start, (e - 1) as nat).union(
            expand(mvs, reach(mvs, start, (e - 1) as nat)),
        ));
        assert(reach(mvs, start, e) == reach(mvs, start, d).union(
            expand(mvs, reach(mvs, start, d)),
        ));
        assert(reach(mvs, start, (d + 1) as nat) == reach(mvs, start, d).union(
            expand(mvs, reach(mvs, start, d)),
        ));
    }
}

/// Expanding just the frontier of depth `d` discovers the same patterns as
/// expanding all of `reach(d)`: older patterns contribute nothing new.
pub proof fn lemma_expand_frontier(mvs: Seq<Seq<usize>>, start: usize, d: nat)
    ensures
        reach(mvs, start, d).union(expand(mvs, frontier(mvs, start, d))) == reach(
            mvs,
            start,
            (d + 1) as nat,
        ),
{
    let r = reach(mvs, start, d);
    let f = frontier(mvs, start, d);
    assert forall|s: usize| expand(mvs, f).contains(s) implies reach(
        mvs,
        start,
        (d + 1) as nat,
    ).contains(s) by {
        let p = choose|p: usize| f.contains(p) && #[trigger] is_successor(mvs, p, s);
        assert(r.contains(p));
        assert(expand(mvs, r).contains(s));
    }
    assert forall|s: usize| reach(mvs, start, (d + 1) as nat).contains(s) implies r.union(
        expand(mvs, f),
    ).contains(s) by {
        if !r.contains(s) {
            let p = choose|p: usize| r.contains(p) && #[trigger] is_successor(mvs, p, s);
            if d > 0 && reach(mvs, start, (d - 1) as nat).contains(p) {
                assert(expand(mvs, reach(mvs, start, (d - 1) as nat)).contains(s));
                assert(r.contains(s));
            } else {
                assert(f.contains(p));
                assert(expand(mvs, f).contains(s));
            }
        }
    }
    assert(r.union(expand(mvs, f)) =~= reach(mvs, start, (d + 1) as nat));
}

/// The successors of the patterns listed by a sequence.
pub open spec fn seq_succs(mvs: Seq<Seq<usize>>, ps: Seq<usize>) -> Set<usize> {
    Set::new(
        |s: usize|
            exists|pi: int| 0 <= pi < ps.len() && is_successor(mvs, #[trigger] ps[pi], s),
    )
}

/// The successors of one pattern under the first `j` moves.
pub open spec fn prefix_succs(mvs: Seq<Seq<usize>>, p: usize, j: int) -> Set<usize> {
    Set::new(|s: usize| exists|i: int| 0 <= i < j && s == (#[trigger] mvs[i])[p as int])
}

/// Successors of a listed pattern set are exactly the expansion of the set
/// the sequence holds.
pub proof fn lemma_seq_succs_is_expand(mvs: Seq<Seq<usize>>, ps: Seq<usize>)
    ensures
        seq_succs(mvs, ps) == expand(mvs, ps.to_set()),
{
    assert forall|s: usize| seq_succs(mvs, ps).contains(s) implies expand(
        mvs,
        ps.to_set(),
    ).contains(s) by {
        let pi = choose|pi: int| 0 <= pi < ps.len() && is_successor(mvs, #[trigger] ps[pi], s);
        assert(ps.to_set().contains(ps[pi]));
        assert(is_successor(mvs, ps[pi], s));
    }
    assert forall|s: usize| expand(mvs, ps.to_set()).contains(s) implies seq_succs(
        mvs,
        ps,
    ).contains(s) by {
        let p = choose|p: usize| ps.to_set().contains(p) && #[trigger] is_successor(mvs, p, s);
        let pi = choose|pi: int| 0 <= pi < ps.len() && ps[pi] == p;
        assert(is_successor(mvs, ps[pi], s));
    }
    assert(seq_succs(mvs, ps) =~= expand(mvs, ps.to_set()));
}

/// Finishing one pattern's moves folds its successors into the listed set.
pub proof fn lemma_seq_succs_push(mvs: Seq<Seq<usize>>, ps: Seq<usize>, p: usize)
    ensures
        seq_succs(mvs, ps.push(p)) == seq_succs(mvs, ps).union(
            prefix_succs(mvs, p, mvs.len() as int),
        ),
{
    let lhs = seq_succs(mvs, ps.push(p));
    let rhs = seq_succs(mvs, ps).union(prefix_succs(mvs, p, mvs.len() as int));
    assert forall|s: usize| lhs.contains(s) implies rhs.contains(s) by {
        let pi = choose|pi: int|
            0 <= pi < ps.push(p).len() && is_successor(mvs, #[trigger] ps.push(p)[pi], s);
        if pi < ps.len() {
            assert(ps.push(p)[pi] == ps[pi]);
            assert(is_successor(mvs, ps[pi], s));
        } else {
            assert(ps.push(p)[pi] == p);
            let i = choose|i: int| 0 <= i < mvs.len() && s == (#[trigger] mvs[i])[p as int];
            assert(prefix_succs(mvs, p, mvs.len() as int).contains(s));
        }
    }
    assert forall|s: usize| rhs.contains(s) implies lhs.contains(s) by {
        if seq_succs(mvs, ps).contains(s) {
            let pi = choose|pi: int|
                0 <= pi < ps.len() && is_successor(mvs, #[trigger] ps[pi], s);
            assert(ps.push(p)[pi] == ps[pi]);
            assert(is_successor(mvs, ps.push(p)[pi], s));
        } else {
            let i = choose|i: int| 0 <= i < mvs.len() && s == (#[trigger] mvs[i])[p as int];
            assert(is_successor(mvs, p, s));
            assert(ps.push(p)[ps.len() as int] == p);
            assert(is_successor(mvs, ps.push(p)[ps.len() as int], s));
        }
    }
    assert(lhs =~= rhs);
}

/// One more move of the current pattern grows its successor prefix by at
/// most that move's image.
pub proof fn lemma_prefix_succs_step(mvs: Seq<Seq<usize>>, p: usize, j: int)
    requires
        0 <= j < mvs.len(),
    ensures
        prefix_succs(mvs, p, j + 1) == prefix_succs(mvs, p, j).insert(mvs[j][p as int]),
{
    let lhs = prefix_succs(mvs, p, j + 1);
    let rhs = prefix_succs(mvs, p, j).insert(mvs[j][p as int]);
    assert forall|s: usize| lhs.contains(s) implies rhs.contains(s) by {
        let i = choose|i: int| 0 <= i < j + 1 && s == (#[trigger] mvs[i])[p as int];
        if i < j {
            assert(prefix_succs(mvs, p, j).contains(s));
        }
    }
    assert forall|s: usize| rhs.contains(s) implies lhs.contains(s) by {
        if prefix_succs(mvs, p, j).contains(s) {
            let i = choose|i: int| 0 <= i < j && s == (#[trigger] mvs[i])[p as int];
            assert(0 <= i < j + 1 && s == mvs[i][p as int]);
        } else {
            assert(s == mvs[j][p as int]);
        }
    }
    assert(lhs =~= rhs);
}

/// An empty listed set has no successors.
pub proof fn lemma_seq_succs_empty(mvs: Seq<Seq<usize>>)
    ensures
        seq_succs(mvs, Seq::<usize>::empty()) == Set::<usize>::empty(),
        prefix_succs(mvs, 0usize, 0) == Set::<usize>::empty(),
{
    assert(seq_succs(mvs, Seq::<usize>::empty()) =~= Set::<usize>::empty());
    assert(prefix_succs(mvs, 0usize, 0) =~= Set::<usize>::empty());
}

/// Monotonic depth order: every pattern recorded at a positive depth has a
/// parent recorded exactly one level shallower from which one move of the
/// generating set reaches it.
pub proof fn lemma_parent_at_previous_depth(
    mvs: Seq<Seq<usize>>,
    start: usize,
    t: Map<usize, usize>,
    s: usize,
)
    requires
        distance_table_correct(mvs, start, t),
        t.contains_key(s),
        t[s] > 0,
    ensures
        exists|p: usize|
            #[trigger] t.contains_key(p) && t[p] + 1 == t[s] && is_successor(mvs, p, s),
{
    let dd = t[s] as nat;
    assert(depth_exact(mvs, start, s, dd));
    assert(reach(mvs, start, dd).contains(s));
    assert(!reach(mvs, start, (dd - 1) as nat).contains(s));
    assert(expand(mvs, reach(mvs, start, (dd - 1) as nat)).contains(s));
    let p = choose|p: usize|
        reach(mvs, start, (dd - 1) as nat).contains(p) && #[trigger] is_successor(mvs, p, s);
    assert(reachable(mvs, start, p)) by {
        assert(reach(mvs, start, (dd - 1) as nat).contains(p));
    }
    assert(t.contains_key(p));
    let dp = t[p] as nat;
    assert(depth_exact(mvs, start, p, dp));
    if dp > dd - 1 {
        lemma_reach_monotone(mvs, start, (dd - 1) as nat, (dp - 1) as nat);
        assert(reach(mvs, start, (dp - 1) as nat).contains(p));
        assert(false);
    }
    if dp < dd - 1 {
        lemma_reach_monotone(mvs, start, dp, (dd - 2) as nat);
        assert(reach(mvs, start, (dd - 2) as nat).contains(p));
        assert(expand(mvs, reach(mvs, start, (dd - 2) as nat)).contains(s));
        assert(reach(mvs, start, (dd - 1) as nat).contains(s));
        assert(false);
    }
    assert(t.contains_key(p) && t[p] + 1 == t[s] && is_successor(mvs, p, s));
}

/// Completeness: every move of the generating set, applied to any recorded
/// pattern, lands on a recorded pattern at most one level deeper.
pub proof fn lemma_neighbors_recorded(
    mvs: Seq<Seq<usize>>,
    start: usize,
    t: Map<usize, usize>,
    s: usize,
    i: int,
)
    requires
        distance_table_correct(mvs, start, t),
        t.contains_key(s),
        0 <= i < mvs.len(),
    ensures
        t.contains_key(mvs[i][s as int]),
        t[mvs[i][s as int]] <= t[s] + 1,
{
    let s2 = mvs[i][s as int];
    let dd = t[s] as nat;
    assert(depth_exact(mvs, start, s, dd));
    assert(reach(mvs, start, dd).contains(s));
    assert(is_successor(mvs, s, s2));
    assert(expand(mvs, reach(mvs, start, dd)).contains(s2));
    assert(reach(mvs, start, (dd + 1) as nat).contains(s2));
    assert(reachable(mvs, start, s2)) by {
        assert(reach(mvs, start, (dd + 1) as nat).contains(s2));
    }
    assert(t.contains_key(s2));
    let d2 = t[s2] as nat;
    assert(depth_exact(mvs, start, s2, d2));
    if d2 > dd + 1 {
        lemma_reach_monotone(mvs, start, (dd + 1) as nat, (d2 - 1) as nat);
        assert(reach(mvs, start, (d2 - 1) as nat).contains(s2));
        assert(false);
    }
}

/// Round-trip determinism: the puzzle, start pattern and move list
/// determine the distance table; any two full tables for the same inputs
/// are equal.
pub proof fn lemma_table_deterministic(
    mvs: Seq<Seq<usize>>,
    start: usize,
    t1: Map<usize, usize>,
    t2: Map<usize, usize>,
)
    requires
        distance_table_correct(mvs, start, t1),
        distance_table_correct(mvs, start, t2),
    ensures
        t1 == t2,
{
    assert forall|s: usize| #[trigger] t1.contains_key(s) implies t2.contains_key(s) && t1[s]
        == t2[s] by {
        assert(reachable(mvs, start, s));
        assert(t2.contains_key(s));
        assert(depth_exact(mvs, start, s, t1[s] as nat));
        assert(depth_exact(mvs, start, s, t2[s] as nat));
        lemma_depth_exact_unique(mvs, start, s, t1[s] as nat, t2[s] as nat);
    }
    assert forall|s: usize| #[trigger] t2.contains_key(s) implies t1.contains_key(s) by {
        assert(reachable(mvs, start, s));
    }
    assert(t1 =~= t2);
}

/// Termination correctness: once some depth's frontier is empty, every
/// reachable pattern already lies strictly below that depth; no pattern
/// exists beyond the last non-empty depth.
pub proof fn lemma_no_patterns_beyond_empty_depth(
    mvs: Seq<Seq<usize>>,
    start: usize,
    d: nat,
    s: usize,
)
    requires
        d > 0,
        frontier(mvs, start, d) == Set::<usize>::empty(),
        reachable(mvs, start, s),
    ensures
        reach(mvs, start, (d - 1) as nat).contains(s),
{
    assert forall|x: usize| reach(mvs, start, d).contains(x) implies reach(
        mvs,
        start,
        (d - 1) as nat,
    ).contains(x) by {
        if !reach(mvs, start, (d - 1) as nat).contains(x) {
            assert(frontier(mvs, start, d).contains(x));
        }
    }
    lemma_reach_monotone(mvs, start, (d - 1) as nat, d);
    assert(reach(mvs, start, d) =~= reach(mvs, start, (d - 1) as nat));
    let e = choose|e: nat| reach(mvs, start, e).contains(s);
    if e <= (d - 1) as nat {
        lemma_reach_monotone(mvs, start, e, (d - 1) as nat);
    } else {
        lemma_reach_stabilizes(mvs, start, (d - 1) as nat, e);
    }
}

/// Exact depths are unique: a pattern has one least distance.
pub proof fn lemma_depth_exact_unique(
    mvs: Seq<Seq<usize>>,
    start: usize,
    s: usize,
    d1: nat,
    d2: nat,
)
    requires
        depth_exact(mvs, start, s, d1),
        depth_exact(mvs, start, s, d2),
    ensures
        d1 == d2,
{
    if d1 < d2 {
        lemma_reach_monotone(mvs, start, d1, (d2 - 1) as nat);
    }
    if d2 < d1 {
        lemma_reach_monotone(mvs, start, d2, (d1 - 1) as nat);
    }
}

} // verus!
