//! Enumeration of the topological sorts of a directed acyclic graph, after
//! Knuth and Szwarcfiter: a deque holds the nodes without unplaced predecessor,
//! the node for the next position is always taken from its back, and on the way
//! back the node returns to its front, so that each position runs through every
//! candidate once.

use crate::acyclicity::{has_no_cycle, in_range};
use std::collections::VecDeque;
use vstd::prelude::*;

verus! {

/// The edges of a list of `[from, to]` pairs, as a set.
pub open spec fn edge_set(edges: Seq<[usize; 2]>) -> Set<(usize, usize)> {
    Set::new(
        |e: (usize, usize)|
            exists|i: int| 0 <= i < edges.len() && (#[trigger] edges[i])[0] == e.0 && edges[i][1] == e.1,
    )
}

/// Every edge joins two nodes of `1..=n`.
pub open spec fn edges_in_range(n: usize, edges: Seq<[usize; 2]>) -> bool {
    forall|i: int|
        0 <= i < edges.len() ==> 1 <= (#[trigger] edges[i])[0] <= n && 1 <= edges[i][1] <= n
}

/// `rank` gives every node a number that grows along every edge.
pub open spec fn is_ranking(rank: Seq<nat>, n: usize, edges: Set<(usize, usize)>) -> bool {
    &&& rank.len() == n + 1
    &&& forall|u: usize, v: usize|
        u <= n && v <= n && #[trigger] edges.contains((u, v)) ==> rank[u as int] < rank[v as int]
}

/// A graph is acyclic when its nodes can be ranked so that every edge leads to
/// a higher rank.
pub open spec fn is_acyclic(n: usize, edges: Set<(usize, usize)>) -> bool {
    exists|rank: Seq<nat>| is_ranking(rank, n, edges)
}

/// `order` lists each node of `1..=n` once, and the source of every edge before
/// its target.
pub open spec fn is_linear_extension(order: Seq<usize>, n: usize, edges: Set<(usize, usize)>) -> bool {
    &&& order.len() == n
    &&& forall|i: int| 0 <= i < order.len() ==> 1 <= #[trigger] order[i] <= n
    &&& forall|i: int, j: int| 0 <= i < j < order.len() ==> order[i] != order[j]
    &&& forall|i: int, j: int|
        0 <= i < order.len() && 0 <= j < order.len() && #[trigger] edges.contains(
            (order[i], order[j]),
        ) ==> i < j
}

/// How often `v` occurs in `s`.
pub open spec fn occurrences(s: Seq<usize>, v: usize) -> nat
    decreases s.len(),
{
    if s.len() == 0 {
        0
    } else {
        occurrences(s.drop_last(), v) + if s.last() == v {
            1nat
        } else {
            0nat
        }
    }
}

/// The number of edges into `v` from the nodes below `m` that are not placed.
pub open spec fn indegree_upto(succ: Seq<Vec<usize>>, placed: Set<usize>, v: usize, m: nat) -> nat
    decreases m,
{
    if m == 0 {
        0
    } else {
        indegree_upto(succ, placed, v, (m - 1) as nat) + if placed.contains((m - 1) as usize) {
            0nat
        } else {
            occurrences(succ[m - 1]@, v)
        }
    }
}

/// The number of edges into `v` from nodes that are not placed.
pub open spec fn indegree(succ: Seq<Vec<usize>>, placed: Set<usize>, v: usize) -> nat {
    indegree_upto(succ, placed, v, succ.len())
}

/// The first `i` entries of `order`, as a set.
pub open spec fn prefix_set(order: Seq<usize>, i: int) -> Set<usize> {
    Set::new(|x: usize| exists|j: int| 0 <= j < i && j < order.len() && order[j] == x)
}

/// `orig` turned so that its last `k` entries come first.
pub open spec fn rotated(orig: Seq<usize>, k: nat) -> Seq<usize> {
    orig.subrange(orig.len() - k, orig.len() as int) + orig.subrange(0, orig.len() - k)
}

/// What one position of the sort has seen: the deque as it stood when the
/// position was first reached, how many of its entries have been tried and put
/// back, and the nodes that the current choice has freed.
pub ghost struct Level {
    pub orig: Seq<usize>,
    pub k: nat,
    pub enabled: Seq<usize>,
}

impl Level {
    pub open spec fn chosen(self) -> usize {
        self.orig[self.orig.len() - self.k - 1]
    }

    pub open spec fn rest(self) -> Seq<usize> {
        rotated(self.orig, self.k).drop_last()
    }

    /// The nodes that have been tried and put back.
    pub open spec fn tried(self) -> Set<usize> {
        Set::new(
            |x: usize|
                exists|a: int| 0 <= a < self.orig.len() && self.orig.len() - self.k <= a && #[trigger] self.orig[a] == x,
        )
    }
}

/// Every entry of `d` is an unplaced node without unplaced predecessor, no
/// entry occurs twice, and every such node is an entry.
pub open spec fn is_frontier(
    d: Seq<usize>,
    succ: Seq<Vec<usize>>,
    placed: Set<usize>,
    n: usize,
) -> bool {
    &&& d.no_duplicates()
    &&& forall|i: int|
        0 <= i < d.len() ==> 1 <= #[trigger] d[i] <= n && !placed.contains(d[i]) && indegree(
            succ,
            placed,
            d[i],
        ) == 0
    &&& forall|v: usize|
        1 <= v <= n && !placed.contains(v) && #[trigger] indegree(succ, placed, v) == 0
            ==> d.contains(v)
}


proof fn lemma_occurrences_push(s: Seq<usize>, x: usize, v: usize)
    ensures
        occurrences(s.push(x), v) == occurrences(s, v) + if x == v {
            1nat
        } else {
            0nat
        },
{
    assert(s.push(x).drop_last() =~= s);
}

proof fn lemma_occurrences_take(s: Seq<usize>, k: int, v: usize)
    requires
        0 <= k <= s.len(),
    ensures
        occurrences(s.take(k), v) <= occurrences(s, v),
        k < s.len() ==> occurrences(s.take(k + 1), v) == occurrences(s.take(k), v) + if s[k] == v {
            1nat
        } else {
            0nat
        },
        k == s.len() ==> occurrences(s.take(k), v) == occurrences(s, v),
    decreases s.len() - k,
{
    if k < s.len() {
        assert(s.take(k + 1) =~= s.take(k).push(s[k]));
        lemma_occurrences_push(s.take(k), s[k], v);
        lemma_occurrences_take(s, k + 1, v);
    } else {
        assert(s.take(k) =~= s);
    }
}

proof fn lemma_occurrences_positive(s: Seq<usize>, v: usize)
    ensures
        occurrences(s, v) > 0 <==> s.contains(v),
    decreases s.len(),
{
    if s.len() > 0 {
        lemma_occurrences_positive(s.drop_last(), v);
        if s.drop_last().contains(v) {
            let j = choose|j: int| 0 <= j < s.drop_last().len() && s.drop_last()[j] == v;
            assert(s[j] == v);
        }
        if s.contains(v) {
            let j = choose|j: int| 0 <= j < s.len() && s[j] == v;
            if j < s.len() - 1 {
                assert(s.drop_last()[j] == v);
            }
        }
    }
}

/// Adding `to` to the row of `from` adds one edge into `to`.
proof fn lemma_indegree_push_row(
    succ: Seq<Vec<usize>>,
    succ2: Seq<Vec<usize>>,
    from: usize,
    to: usize,
    placed: Set<usize>,
    v: usize,
    m: nat,
)
    requires
        succ.len() == succ2.len(),
        m <= succ.len() <= usize::MAX,
        from < succ.len(),
        succ2[from as int]@ == succ[from as int]@.push(to),
        forall|u: int| 0 <= u < succ.len() && u != from ==> succ2[u] == succ[u],
    ensures
        indegree_upto(succ2, placed, v, m) == indegree_upto(succ, placed, v, m) + if from < m
            && !placed.contains(from) && v == to {
            1nat
        } else {
            0nat
        },
    decreases m,
{
    if m > 0 {
        lemma_indegree_push_row(succ, succ2, from, to, placed, v, (m - 1) as nat);
        if m - 1 == from {
            lemma_occurrences_push(succ[from as int]@, to, v);
        }
    }
}

/// Placing `q` takes its edges out of every indegree.
proof fn lemma_indegree_insert(succ: Seq<Vec<usize>>, placed: Set<usize>, q: usize, v: usize, m: nat)
    requires
        m <= succ.len() <= usize::MAX,
        !placed.contains(q),
    ensures
        indegree_upto(succ, placed, v, m) == indegree_upto(succ, placed.insert(q), v, m) + if q < m {
            occurrences(succ[q as int]@, v)
        } else {
            0nat
        },
    decreases m,
{
    if m > 0 {
        lemma_indegree_insert(succ, placed, q, v, (m - 1) as nat);
    }
}

/// An unplaced node adds its edges to the indegree.
proof fn lemma_indegree_bounds(succ: Seq<Vec<usize>>, placed: Set<usize>, u: usize, v: usize, m: nat)
    requires
        m <= succ.len() <= usize::MAX,
        u < m,
        !placed.contains(u),
    ensures
        occurrences(succ[u as int]@, v) <= indegree_upto(succ, placed, v, m),
    decreases m,
{
    if m - 1 != u {
        lemma_indegree_bounds(succ, placed, u, v, (m - 1) as nat);
    }
}

/// With more nodes placed, fewer edges count.
proof fn lemma_indegree_monotone(
    succ: Seq<Vec<usize>>,
    small: Set<usize>,
    large: Set<usize>,
    v: usize,
    m: nat,
)
    requires
        m <= succ.len() <= usize::MAX,
        forall|x: usize| small.contains(x) ==> large.contains(x),
    ensures
        indegree_upto(succ, large, v, m) <= indegree_upto(succ, small, v, m),
    decreases m,
{
    if m > 0 {
        lemma_indegree_monotone(succ, small, large, v, (m - 1) as nat);
    }
}

/// A node all of whose predecessors are placed has indegree zero.
proof fn lemma_indegree_zero(succ: Seq<Vec<usize>>, placed: Set<usize>, v: usize, m: nat)
    requires
        m <= succ.len() <= usize::MAX,
        forall|u: usize| u < m && !placed.contains(u) ==> occurrences(#[trigger] succ[u as int]@, v) == 0,
    ensures
        indegree_upto(succ, placed, v, m) == 0,
    decreases m,
{
    if m > 0 {
        lemma_indegree_zero(succ, placed, v, (m - 1) as nat);
        let u = (m - 1) as usize;
        if !placed.contains(u) {
            assert(occurrences(succ[u as int]@, v) == 0);
        }
    }
}

/// Fewer than `n` distinct nodes of `1..=n` leave one out.
proof fn lemma_some_node_unplaced(s: Seq<usize>, n: usize) -> (v: usize)
    requires
        s.len() < n,
        s.no_duplicates(),
        forall|i: int| 0 <= i < s.len() ==> 1 <= #[trigger] s[i] <= n,
    ensures
        1 <= v <= n,
        !s.contains(v),
    decreases n,
{
    if !s.contains(n) {
        n
    } else {
        let j = choose|j: int| 0 <= j < s.len() && s[j] == n;
        let t = s.remove(j);
        assert forall|i: int| 0 <= i < t.len() implies 1 <= #[trigger] t[i] <= n - 1 by {
            if i < j {
                assert(t[i] == s[i]);
            } else {
                assert(t[i] == s[i + 1]);
            }
        }
        assert(t.no_duplicates()) by {
            assert forall|a: int, b: int| 0 <= a < t.len() && 0 <= b < t.len() && a != b implies t[a]
                != t[b] by {
                let a2 = if a < j { a } else { a + 1 };
                let b2 = if b < j { b } else { b + 1 };
                assert(t[a] == s[a2] && t[b] == s[b2]);
            }
        }
        let v = lemma_some_node_unplaced(t, (n - 1) as usize);
        if s.contains(v) {
            let i = choose|i: int| 0 <= i < s.len() && s[i] == v;
            if i < j {
                assert(t[i] == v);
            } else {
                assert(t[i - 1] == v);
            }
        }
        v
    }
}

/// Among the unplaced nodes one has the lowest rank.
proof fn lemma_lowest_unplaced(rank: Seq<nat>, placed: Set<usize>, n: usize, v0: usize) -> (v: usize)
    requires
        rank.len() == n + 1,
        1 <= v0 <= n,
        !placed.contains(v0),
    ensures
        1 <= v <= n,
        !placed.contains(v),
        forall|u: usize| 1 <= u <= n && !placed.contains(u) ==> rank[v as int] <= rank[u as int],
    decreases rank[v0 as int],
{
    if exists|u: usize| 1 <= u <= n && !placed.contains(u) && rank[u as int] < rank[v0 as int] {
        let u = choose|u: usize| 1 <= u <= n && !placed.contains(u) && rank[u as int] < rank[v0 as int];
        lemma_lowest_unplaced(rank, placed, n, u)
    } else {
        v0
    }
}


proof fn lemma_prefix_set_stable(s: Seq<usize>, t: Seq<usize>, i: int)
    requires
        0 <= i <= s.len(),
        i <= t.len(),
        forall|j: int| 0 <= j < i ==> s[j] == t[j],
    ensures
        prefix_set(s, i) == prefix_set(t, i),
{
    assert forall|x: usize| prefix_set(s, i).contains(x) <==> prefix_set(t, i).contains(x) by {
        if prefix_set(s, i).contains(x) {
            let j = choose|j: int| 0 <= j < i && j < s.len() && s[j] == x;
            assert(0 <= j < i && j < t.len() && t[j] == x);
        }
        if prefix_set(t, i).contains(x) {
            let j = choose|j: int| 0 <= j < i && j < t.len() && t[j] == x;
            assert(0 <= j < i && j < s.len() && s[j] == x);
        }
    }
    assert(prefix_set(s, i) =~= prefix_set(t, i));
}

proof fn lemma_prefix_set_push(s: Seq<usize>, q: usize)
    ensures
        prefix_set(s.push(q), s.len() as int + 1) == prefix_set(s, s.len() as int).insert(q),
{
    let t = s.push(q);
    assert forall|x: usize| prefix_set(t, s.len() as int + 1).contains(x) <==> prefix_set(
        s,
        s.len() as int,
    ).insert(q).contains(x) by {
        if prefix_set(t, s.len() as int + 1).contains(x) {
            let j = choose|j: int| 0 <= j < s.len() + 1 && j < t.len() && t[j] == x;
            if j < s.len() {
                assert(s[j] == x);
            }
        }
        if prefix_set(s, s.len() as int).contains(x) {
            let j = choose|j: int| 0 <= j < s.len() && j < s.len() && s[j] == x;
            assert(t[j] == x);
        }
        if x == q {
            assert(t[s.len() as int] == x);
        }
    }
    assert(prefix_set(t, s.len() as int + 1) =~= prefix_set(s, s.len() as int).insert(q));
}

/// Turning a frontier leaves it a frontier.
proof fn lemma_rotated_frontier(
    orig: Seq<usize>,
    k: nat,
    succ: Seq<Vec<usize>>,
    placed: Set<usize>,
    n: usize,
)
    requires
        k <= orig.len(),
        is_frontier(orig, succ, placed, n),
    ensures
        is_frontier(rotated(orig, k), succ, placed, n),
        rotated(orig, k).len() == orig.len(),
        k < orig.len() ==> rotated(orig, k).last() == orig[orig.len() - k - 1],
        k == orig.len() ==> rotated(orig, k) == orig,
        k == 0 ==> rotated(orig, k) == orig,
{
    let r = rotated(orig, k);
    let m = orig.len() as int;
    assert forall|i: int| 0 <= i < r.len() implies r[i] == orig[if i < k { m - k + i } else { i - k }] by {}
    assert forall|i: int, j: int| 0 <= i < r.len() && 0 <= j < r.len() && i != j implies r[i] != r[j] by {
        let a = if i < k { m - k + i } else { i - k };
        let b = if j < k { m - k + j } else { j - k };
        assert(r[i] == orig[a] && r[j] == orig[b]);
    }
    assert forall|i: int| 0 <= i < r.len() implies 1 <= #[trigger] r[i] <= n && !placed.contains(r[i])
        && indegree(succ, placed, r[i]) == 0 by {
        let a = if i < k { m - k + i } else { i - k };
        assert(r[i] == orig[a]);
    }
    assert forall|v: usize|
        1 <= v <= n && !placed.contains(v) && #[trigger] indegree(succ, placed, v) == 0 implies r.contains(
        v,
    ) by {
        let a = choose|a: int| 0 <= a < orig.len() && orig[a] == v;
        let i = if a < m - k { a + k } else { a - (m - k) };
        assert(r[i] == v);
    }
    if k == orig.len() || k == 0 {
        assert(r =~= orig);
    }
}

/// Takes the edges of `q` out of the counts, now that `q` is placed, and puts
/// the nodes that this frees at the back of the deque.
fn release(
    successors: &Vec<Vec<usize>>,
    count: &mut Vec<u32>,
    available: &mut VecDeque<usize>,
    q: usize,
    Ghost(placed): Ghost<Set<usize>>,
    Ghost(rank): Ghost<Seq<nat>>,
    Ghost(n): Ghost<usize>,
) -> (enabled: Ghost<Seq<usize>>)
    requires
        graph_ok(successors@, rank, n),
        counts_ok(old(count)@, successors@, placed, n),
        1 <= q <= n,
        is_frontier(old(available)@.push(q), successors@, placed, n),
        forall|x: usize| x <= n && placed.contains(x) ==> (#[trigger] old(count)@[x as int]) == 0,
    ensures
        counts_ok(final(count)@, successors@, placed.insert(q), n),
        final(available)@ == old(available)@ + enabled@,
        is_frontier(final(available)@, successors@, placed.insert(q), n),
        forall|j: int|
            0 <= j < enabled@.len() ==> occurrences(successors@[q as int]@, #[trigger] enabled@[j]) > 0,
        forall|x: usize|
            x <= n && placed.insert(q).contains(x) ==> (#[trigger] final(count)@[x as int]) == 0,
{
    let ghost rest = available@;
    let ghost row = successors@[q as int]@;
    let ghost mut enabled: Seq<usize> = Seq::empty();
    proof {
        assert(rest.push(q)[rest.len() as int] == q);
        assert(!placed.contains(q));
        assert(indegree(successors@, placed, q) == 0);
        assert(available@ =~= rest + enabled);
        assert forall|v: usize| v <= n implies (#[trigger] count@[v as int]) + occurrences(
            row.take(0),
            v,
        ) == indegree(successors@, placed, v) by {
            assert(row.take(0) =~= Seq::<usize>::empty());
        }
    }
    let mut k: usize = 0;
    while k < successors[q].len()
        invariant
            graph_ok(successors@, rank, n),
            1 <= q <= n,
            !placed.contains(q),
            row == successors@[q as int]@,
            0 <= k <= row.len(),
            count@.len() == n + 1,
            forall|v: usize|
                v <= n ==> (#[trigger] count@[v as int]) + occurrences(row.take(k as int), v) == indegree(
                    successors@,
                    placed,
                    v,
                ),
            available@ == rest + enabled,
            enabled.no_duplicates(),
            forall|j: int|
                0 <= j < enabled.len() ==> {
                    let e = #[trigger] enabled[j];
                    &&& 1 <= e <= n
                    &&& occurrences(row, e) > 0
                    &&& occurrences(row.take(k as int), e) == occurrences(row, e)
                    &&& count@[e as int] == 0
                },
            forall|v: usize|
                1 <= v <= n && indegree(successors@, placed, v) > 0 && (#[trigger] count@[v as int]) == 0
                    ==> enabled.contains(v),
        decreases row.len() - k,
    {
        let s = successors[q][k];
        proof {
            lemma_indegree_bounds(successors@, placed, q, s, successors@.len());
            lemma_occurrences_take(row, k as int, s);
            lemma_occurrences_take(row, k as int + 1, s);
            assert(count@[s as int] >= 1);
        }
        let ghost count_before = count@;
        count[s] -= 1;
        proof {
            assert forall|v: usize| v <= n implies (#[trigger] count@[v as int]) + occurrences(
                row.take(k as int + 1),
                v,
            ) == indegree(successors@, placed, v) by {
                lemma_occurrences_take(row, k as int, v);
                assert(count_before[v as int] + occurrences(row.take(k as int), v) == indegree(
                    successors@,
                    placed,
                    v,
                ));
            }
            assert forall|j: int| 0 <= j < enabled.len() implies {
                let e = #[trigger] enabled[j];
                &&& occurrences(row.take(k as int + 1), e) == occurrences(row, e)
                &&& count@[e as int] == 0
                &&& e != s
            } by {
                let e = enabled[j];
                lemma_occurrences_take(row, k as int, e);
                lemma_occurrences_take(row, k as int + 1, e);
                assert(count_before[e as int] == 0);
            }
        }
        if count[s] == 0 {
            available.push_back(s);
            proof {
                let grown = enabled.push(s);
                assert(available@ =~= rest + grown);
                assert forall|j: int| 0 <= j < grown.len() implies {
                    let e = #[trigger] grown[j];
                    &&& 1 <= e <= n
                    &&& occurrences(row, e) > 0
                    &&& occurrences(row.take(k as int + 1), e) == occurrences(row, e)
                    &&& count@[e as int] == 0
                } by {
                    if j < enabled.len() {
                        assert(grown[j] == enabled[j]);
                    } else {
                        assert(grown[j] == s);
                    }
                }
                assert(grown.no_duplicates()) by {
                    assert forall|a: int, b: int|
                        0 <= a < grown.len() && 0 <= b < grown.len() && a != b implies grown[a]
                        != grown[b] by {
                        if a < enabled.len() {
                            assert(grown[a] == enabled[a]);
                        }
                        if b < enabled.len() {
                            assert(grown[b] == enabled[b]);
                        }
                    }
                }
                assert forall|v: usize|
                    1 <= v <= n && indegree(successors@, placed, v) > 0 && (#[trigger] count@[v as int])
                        == 0 implies grown.contains(v) by {
                    if v == s {
                        assert(grown[enabled.len() as int] == v);
                    } else {
                        assert(count_before[v as int] == 0);
                        let j = choose|j: int| 0 <= j < enabled.len() && enabled[j] == v;
                        assert(grown[j] == v);
                    }
                }
                enabled = grown;
            }
        } else {
            proof {
                assert forall|v: usize|
                    1 <= v <= n && indegree(successors@, placed, v) > 0 && (#[trigger] count@[v as int])
                        == 0 implies enabled.contains(v) by {
                    assert(count_before[v as int] == 0);
                }
            }
        }
        k += 1;
    }
    proof {
        let placed2 = placed.insert(q);
        assert forall|v: usize| v <= n implies (#[trigger] count@[v as int]) == indegree(
            successors@,
            placed2,
            v,
        ) by {
            lemma_occurrences_take(row, row.len() as int, v);
            lemma_indegree_insert(successors@, placed, q, v, successors@.len());
        }
        let d = available@;
        assert forall|i: int| 0 <= i < rest.len() implies {
            let r = #[trigger] rest[i];
            &&& 1 <= r <= n
            &&& !placed.contains(r)
            &&& r != q
            &&& indegree(successors@, placed, r) == 0
            &&& indegree(successors@, placed2, r) == 0
        } by {
            let r = rest[i];
            assert(rest.push(q)[i] == r);
            assert(rest.push(q)[rest.len() as int] == q);
            lemma_indegree_insert(successors@, placed, q, r, successors@.len());
        }
        assert forall|j: int| 0 <= j < enabled.len() implies {
            let e = #[trigger] enabled[j];
            &&& !placed.contains(e)
            &&& e != q
            &&& indegree(successors@, placed, e) > 0
            &&& indegree(successors@, placed2, e) == 0
        } by {
            let e = enabled[j];
            lemma_indegree_bounds(successors@, placed, q, e, successors@.len());
            lemma_occurrences_positive(row, e);
            let idx = choose|idx: int| 0 <= idx < row.len() && row[idx] == e;
            assert(rank[q as int] < rank[successors@[q as int]@[idx] as int]);
            assert(count@[e as int] == 0);
            if placed.contains(e) {
                assert(old(count)@[e as int] == 0);
            }
        }
        assert(d.no_duplicates()) by {
            assert forall|a: int, b: int| 0 <= a < d.len() && 0 <= b < d.len() && a != b implies d[a]
                != d[b] by {
                if a < rest.len() {
                    assert(d[a] == rest[a]);
                    assert(rest.push(q)[a] == rest[a]);
                } else {
                    assert(d[a] == enabled[a - rest.len()]);
                }
                if b < rest.len() {
                    assert(d[b] == rest[b]);
                    assert(rest.push(q)[b] == rest[b]);
                } else {
                    assert(d[b] == enabled[b - rest.len()]);
                }
            }
        }
        assert forall|i: int| 0 <= i < d.len() implies 1 <= #[trigger] d[i] <= n && !placed2.contains(
            d[i],
        ) && indegree(successors@, placed2, d[i]) == 0 by {
            if i < rest.len() {
                assert(d[i] == rest[i]);
            } else {
                assert(d[i] == enabled[i - rest.len()]);
            }
        }
        assert forall|v: usize|
            1 <= v <= n && !placed2.contains(v) && #[trigger] indegree(successors@, placed2, v)
                == 0 implies d.contains(v) by {
            assert(count@[v as int] == 0);
            if indegree(successors@, placed, v) == 0 {
                let i = choose|i: int| 0 <= i < rest.push(q).len() && rest.push(q)[i] == v;
                assert(i < rest.len());
                assert(d[i] == v);
            } else {
                let j = choose|j: int| 0 <= j < enabled.len() && enabled[j] == v;
                assert(d[rest.len() + j] == v);
            }
        }
        assert forall|x: usize| x <= n && placed2.contains(x) implies (#[trigger] count@[x as int])
            == 0 by {
            lemma_indegree_monotone(successors@, placed, placed2, x, successors@.len());
            if x != q {
                assert(old(count)@[x as int] == 0);
            }
        }
    }
    Ghost(enabled)
}

/// Puts the edges of `q` back into the counts, now that `q` is taken back.
fn restore(
    successors: &Vec<Vec<usize>>,
    count: &mut Vec<u32>,
    q: usize,
    Ghost(placed): Ghost<Set<usize>>,
    Ghost(rank): Ghost<Seq<nat>>,
    Ghost(n): Ghost<usize>,
)
    requires
        graph_ok(successors@, rank, n),
        counts_ok(old(count)@, successors@, placed.insert(q), n),
        1 <= q <= n,
        !placed.contains(q),
    ensures
        counts_ok(final(count)@, successors@, placed, n),
{
    let ghost row = successors@[q as int]@;
    let ghost placed2 = placed.insert(q);
    proof {
        assert forall|v: usize| v <= n implies (#[trigger] count@[v as int]) == indegree(
            successors@,
            placed2,
            v,
        ) + occurrences(row.take(0), v) by {
            assert(row.take(0) =~= Seq::<usize>::empty());
        }
    }
    let mut k: usize = 0;
    while k < successors[q].len()
        invariant
            graph_ok(successors@, rank, n),
            1 <= q <= n,
            !placed.contains(q),
            placed2 == placed.insert(q),
            row == successors@[q as int]@,
            0 <= k <= row.len(),
            count@.len() == n + 1,
            forall|v: usize|
                v <= n ==> (#[trigger] count@[v as int]) == indegree(successors@, placed2, v)
                    + occurrences(row.take(k as int), v),
        decreases row.len() - k,
    {
        let s = successors[q][k];
        proof {
            lemma_occurrences_take(row, k as int, s);
            lemma_occurrences_take(row, k as int + 1, s);
            lemma_indegree_insert(successors@, placed, q, s, successors@.len());
            lemma_indegree_monotone(successors@, Set::empty(), placed, s, successors@.len());
            assert(indegree(successors@, Set::empty(), s) <= u32::MAX);
        }
        let ghost count_before = count@;
        count[s] += 1;
        proof {
            assert forall|v: usize| v <= n implies (#[trigger] count@[v as int]) == indegree(
                successors@,
                placed2,
                v,
            ) + occurrences(row.take(k as int + 1), v) by {
                lemma_occurrences_take(row, k as int, v);
                assert(count_before[v as int] == indegree(successors@, placed2, v) + occurrences(
                    row.take(k as int),
                    v,
                ));
            }
        }
        k += 1;
    }
    proof {
        assert forall|v: usize| v <= n implies (#[trigger] count@[v as int]) == indegree(
            successors@,
            placed,
            v,
        ) by {
            lemma_occurrences_take(row, row.len() as int, v);
            lemma_indegree_insert(successors@, placed, q, v, successors@.len());
        }
    }
}

/// What holds of a graph stored as successor lists, with a ranking that shows
/// it to be acyclic.
pub open spec fn graph_ok(succ: Seq<Vec<usize>>, rank: Seq<nat>, n: usize) -> bool {
    &&& n < usize::MAX
    &&& succ.len() == n + 1
    &&& rank.len() == n + 1
    &&& succ[0]@.len() == 0
    &&& forall|u: int, k: int|
        0 <= u <= n && 0 <= k < succ[u]@.len() ==> 1 <= #[trigger] succ[u]@[k] <= n && rank[u]
            < rank[succ[u]@[k] as int]
    &&& forall|v: usize| v <= n ==> #[trigger] indegree(succ, Set::empty(), v) <= u32::MAX
}

/// `count` holds for every node the number of edges into it from nodes that
/// are not placed.
pub open spec fn counts_ok(count: Seq<u32>, succ: Seq<Vec<usize>>, placed: Set<usize>, n: usize) -> bool {
    &&& count.len() == n + 1
    &&& forall|v: usize| v <= n ==> (#[trigger] count[v as int]) == indegree(succ, placed, v)
}

/// No more than `m` different nodes are among the nodes `1..=m`.
proof fn lemma_distinct_bound(s: Seq<usize>, m: usize)
    requires
        s.no_duplicates(),
        forall|i: int| 0 <= i < s.len() ==> 1 <= #[trigger] s[i] <= m,
    ensures
        s.len() <= m,
    decreases m,
{
    if s.len() > 0 {
        if m == 0 {
            assert(1 <= s[0] <= m);
        } else if s.contains(m) {
            let j = choose|j: int| 0 <= j < s.len() && s[j] == m;
            let t = s.remove(j);
            assert forall|i: int| 0 <= i < t.len() implies 1 <= #[trigger] t[i] <= m - 1 by {
                if i < j {
                    assert(t[i] == s[i]);
                } else {
                    assert(t[i] == s[i + 1]);
                }
            }
            assert(t.no_duplicates()) by {
                assert forall|a: int, b: int| 0 <= a < t.len() && 0 <= b < t.len() && a != b implies t[a]
                    != t[b] by {
                    let a2 = if a < j {
                        a
                    } else {
                        a + 1
                    };
                    let b2 = if b < j {
                        b
                    } else {
                        b + 1
                    };
                    assert(t[a] == s[a2] && t[b] == s[b2]);
                }
            }
            lemma_distinct_bound(t, (m - 1) as usize);
        } else {
            assert forall|i: int| 0 <= i < s.len() implies 1 <= #[trigger] s[i] <= m - 1 by {
                if s[i] == m {
                    assert(s.contains(m));
                }
            }
            lemma_distinct_bound(s, (m - 1) as usize);
        }
    }
}

/// A topological sort holds every node.
pub proof fn lemma_sort_holds_every_node(order: Seq<usize>, n: usize, edges: Set<(usize, usize)>, v: usize)
    requires
        is_linear_extension(order, n, edges),
        1 <= v <= n,
    ensures
        order.contains(v),
{
    if !order.contains(v) {
        let longer = order.push(v);
        assert(longer.no_duplicates()) by {
            assert forall|a: int, b: int|
                0 <= a < longer.len() && 0 <= b < longer.len() && a != b implies longer[a] != longer[b] by {
                if a < order.len() && b < order.len() {
                    if a < b {
                        assert(order[a] != order[b]);
                    } else {
                        assert(order[b] != order[a]);
                    }
                } else if a < order.len() {
                    if order[a] == v {
                        assert(order.contains(v));
                    }
                } else {
                    if order[b] == v {
                        assert(order.contains(v));
                    }
                }
            }
        }
        assert forall|i: int| 0 <= i < longer.len() implies 1 <= #[trigger] longer[i] <= n by {
            if i < order.len() {
                assert(longer[i] == order[i]);
            }
        }
        lemma_distinct_bound(longer, n);
    }
}

/// All topological sorts of a directed acyclic graph on the nodes `1..=n`, one
/// after the other.
///
/// `next` moves on to the following sort and `current` shows it.
pub struct AllTopologicalSorts {
    n: usize,
    /// `successors[i]` holds the nodes that `i` points to.
    successors: Vec<Vec<usize>>,
    /// The number of edges into each node from nodes that are not placed.
    count: Vec<u32>,
    /// The nodes that can be placed next.
    available: VecDeque<usize>,
    /// The first choice at each position.
    bases: Vec<usize>,
    /// The sort that is being built.
    current: Vec<usize>,
    /// Whether every sort has been shown.
    done: bool,
    levels: Ghost<Seq<Level>>,
    rank: Ghost<Seq<nat>>,
    /// The sorts that have been shown.
    shown: Ghost<Set<Seq<usize>>>,
}

impl AllTopologicalSorts {
    /// The number of nodes.
    pub closed spec fn node_count(&self) -> usize {
        self.n
    }

    /// The edges of the graph.
    pub closed spec fn edges(&self) -> Set<(usize, usize)> {
        Set::new(
            |e: (usize, usize)|
                e.0 <= self.n && occurrences(self.successors@[e.0 as int]@, e.1) > 0,
        )
    }

    /// Whether every sort has been shown.
    pub closed spec fn is_done(&self) -> bool {
        self.done
    }

    /// The nodes placed so far, in their order.
    pub closed spec fn order(&self) -> Seq<usize> {
        self.current@
    }

    /// The sorts that have been shown so far.
    pub closed spec fn shown(&self) -> Set<Seq<usize>> {
        self.shown@
    }

    /// Whether `l` parts from the sort that is being built at the position
    /// `i`, with a node that has been tried there and put back.
    spec fn covers_at(&self, l: Seq<usize>, i: int) -> bool {
        &&& 0 <= i < self.levels@.len()
        &&& i <= self.current@.len()
        &&& i < l.len()
        &&& l.take(i) == self.current@.take(i)
        &&& self.levels@[i].tried().contains(l[i])
    }

    /// Whether `l` lies in a part of the search that is done with.
    spec fn covered(&self, l: Seq<usize>) -> bool {
        exists|i: int| #[trigger] self.covers_at(l, i)
    }

    /// The sorts shown are the sorts in the parts of the search that are done
    /// with.
    spec fn tally_open(&self) -> bool {
        forall|l: Seq<usize>| #[trigger]
            self.shown@.contains(l) <==> is_linear_extension(l, self.n, self.edges()) && self.covered(l)
    }

    /// The sorts shown are the sorts in the parts of the search that are done
    /// with, and the sorts that begin with the nodes placed.
    spec fn tally_closed(&self) -> bool {
        forall|l: Seq<usize>| #[trigger]
            self.shown@.contains(l) <==> is_linear_extension(l, self.n, self.edges()) && (self.covered(l)
                || l.take(self.current@.len() as int) == self.current@)
    }

    /// Every sort of a graph with nodes has been shown, and nothing else.
    spec fn tally_done(&self) -> bool {
        forall|l: Seq<usize>| #[trigger]
            self.shown@.contains(l) <==> is_linear_extension(l, self.n, self.edges()) && self.n > 0
    }

    /// The tally between two calls.
    spec fn tally(&self) -> bool {
        if self.n > 0 && self.current@.len() == self.n {
            self.tally_closed()
        } else {
            self.tally_open()
        }
    }

    spec fn placed(&self, i: int) -> Set<usize> {
        prefix_set(self.current@, i)
    }

    spec fn current_ok(&self) -> bool {
        &&& self.current@.len() <= self.n
        &&& self.current@.no_duplicates()
        &&& forall|i: int| 0 <= i < self.current@.len() ==> 1 <= #[trigger] self.current@[i] <= self.n
    }

    spec fn level_ok(&self, i: int) -> bool {
        let lv = self.levels@[i];
        &&& lv.k < lv.orig.len()
        &&& is_frontier(lv.orig, self.successors@, self.placed(i), self.n)
        &&& self.bases@[i] == lv.orig.last()
        &&& i < self.current@.len() ==> {
            &&& self.current@[i] == lv.chosen()
            &&& forall|j: int|
                0 <= j < lv.enabled.len() ==> occurrences(
                    self.successors@[self.current@[i] as int]@,
                    #[trigger] lv.enabled[j],
                ) > 0
        }
        &&& i + 1 < self.levels@.len() ==> self.levels@[i + 1].orig == lv.rest() + lv.enabled
    }

    spec fn levels_ok(&self) -> bool {
        &&& self.bases@.len() == self.levels@.len()
        &&& forall|i: int| 0 <= i < self.levels@.len() ==> self.level_ok(i)
    }

    /// The deque as it stands when a position is reached from the one before.
    spec fn fresh(&self) -> bool {
        let len = self.current@.len() as int;
        &&& self.levels@.len() == len
        &&& is_frontier(self.available@, self.successors@, self.placed(len), self.n)
        &&& len >= 1 ==> self.available@ == self.levels@[len - 1].rest() + self.levels@[len
            - 1].enabled
    }

    /// The deque as it stands when a position is reached again on the way back.
    spec fn turned(&self) -> bool {
        let len = self.current@.len() as int;
        &&& self.levels@.len() == len + 1
        &&& self.levels@[len].k >= 1
        &&& self.available@ == rotated(self.levels@[len].orig, self.levels@[len].k)
    }

    spec fn common(&self) -> bool {
        &&& graph_ok(self.successors@, self.rank@, self.n)
        &&& counts_ok(self.count@, self.successors@, self.placed(self.current@.len() as int), self.n)
        &&& self.current_ok()
        &&& self.levels_ok()
    }

    /// The invariant of the enumeration between two calls.
    pub closed spec fn wf(&self) -> bool {
        &&& graph_ok(self.successors@, self.rank@, self.n)
        &&& !self.done ==> self.common() && self.fresh() && self.tally()
        &&& self.done ==> self.tally_done()
    }

    /// Starts the enumeration on the graph with the nodes `1..=n` and the given
    /// `[from, to]` edges.
    pub fn new(n: usize, edges: &[[usize; 2]]) -> (sorts: Self)
        requires
            n < usize::MAX,
            edges@.len() <= u32::MAX,
            edges_in_range(n, edges@),
            is_acyclic(n, edge_set(edges@)),
        ensures
            sorts.wf(),
            sorts.node_count() == n,
            sorts.edges() == edge_set(edges@),
            sorts.order() == Seq::<usize>::empty(),
            sorts.shown() == Set::<Seq<usize>>::empty(),
            !sorts.is_done(),
    {
        let mut successors: Vec<Vec<usize>> = Vec::new();
        let mut count: Vec<u32> = Vec::new();
        let mut u: usize = 0;
        while u <= n
            invariant
                n < usize::MAX,
                u <= n + 1,
                successors@.len() == u,
                count@.len() == u,
                forall|i: int| 0 <= i < u ==> (#[trigger] successors@[i])@.len() == 0,
                forall|i: int| 0 <= i < u ==> #[trigger] count@[i] == 0,
            decreases n + 1 - u,
        {
            successors.push(Vec::new());
            count.push(0);
            u += 1;
        }
        proof {
            assert forall|v: usize| v <= n implies #[trigger] indegree(
                successors@,
                Set::empty(),
                v,
            ) == 0 by {
                assert forall|w: usize| w < successors@.len() && !Set::<usize>::empty().contains(
                    w,
                ) implies occurrences(#[trigger] successors@[w as int]@, v) == 0 by {}
                lemma_indegree_zero(successors@, Set::empty(), v, successors@.len());
            }
        }
        let mut i: usize = 0;
        while i < edges.len()
            invariant
                n < usize::MAX,
                i <= edges@.len() <= u32::MAX,
                edges_in_range(n, edges@),
                successors@.len() == n + 1,
                count@.len() == n + 1,
                successors@[0]@.len() == 0,
                forall|a: int, k: int|
                    0 <= a <= n && 0 <= k < successors@[a]@.len() ==> 1 <= #[trigger] successors@[a]@[k]
                        <= n,
                forall|a: usize, b: usize|
                    a <= n ==> (#[trigger] occurrences(successors@[a as int]@, b) > 0 <==> exists|j: int|
                        0 <= j < i && (#[trigger] edges@[j])[0] == a && edges@[j][1] == b),
                forall|v: usize|
                    v <= n ==> (#[trigger] count@[v as int]) == indegree(successors@, Set::empty(), v)
                        && count@[v as int] <= i,
            decreases edges@.len() - i,
        {
            let from = edges[i][0];
            let to = edges[i][1];
            let ghost before = successors@;
            successors[from].push(to);
            count[to] += 1;
            proof {
                assert forall|v: usize| v <= n implies (#[trigger] count@[v as int]) == indegree(
                    successors@,
                    Set::empty(),
                    v,
                ) && count@[v as int] <= i + 1 by {
                    lemma_indegree_push_row(
                        before,
                        successors@,
                        from,
                        to,
                        Set::empty(),
                        v,
                        before.len(),
                    );
                }
                assert forall|a: usize, b: usize| a <= n implies (#[trigger] occurrences(
                    successors@[a as int]@,
                    b,
                ) > 0 <==> exists|j: int|
                    0 <= j < i + 1 && (#[trigger] edges@[j])[0] == a && edges@[j][1] == b) by {
                    if a == from {
                        lemma_occurrences_push(before[a as int]@, to, b);
                    }
                    if occurrences(before[a as int]@, b) > 0 {
                        let j = choose|j: int|
                            0 <= j < i && (#[trigger] edges@[j])[0] == a && edges@[j][1] == b;
                        assert(0 <= j < i + 1 && edges@[j][0] == a && edges@[j][1] == b);
                    }
                    if a == from && b == to {
                        assert(edges@[i as int][0] == a && edges@[i as int][1] == b);
                    }
                    if exists|j: int|
                        0 <= j < i + 1 && (#[trigger] edges@[j])[0] == a && edges@[j][1] == b {
                        let j = choose|j: int|
                            0 <= j < i + 1 && (#[trigger] edges@[j])[0] == a && edges@[j][1] == b;
                        if j < i {
                            assert(occurrences(before[a as int]@, b) > 0);
                        }
                    }
                }
            }
            i += 1;
        }
        let mut available: VecDeque<usize> = VecDeque::new();
        let mut v: usize = 1;
        while v <= n
            invariant
                n < usize::MAX,
                1 <= v <= n + 1,
                count@.len() == n + 1,
                forall|j: int| 0 <= j < available@.len() ==> 1 <= #[trigger] available@[j] < v && count@[available@[j] as int] == 0,
                forall|j: int, k: int| 0 <= j < k < available@.len() ==> available@[j] < available@[k],
                forall|w: usize| 1 <= w < v && #[trigger] count@[w as int] == 0 ==> available@.contains(w),
            decreases n + 1 - v,
        {
            if count[v] == 0 {
                let ghost before = available@;
                available.push_back(v);
                proof {
                    assert(available@[before.len() as int] == v);
                    assert forall|w: usize| 1 <= w < v + 1 && #[trigger] count@[w as int] == 0 implies available@.contains(w) by {
                        if w < v {
                            let j = choose|j: int| 0 <= j < before.len() && before[j] == w;
                            assert(available@[j] == w);
                        }
                    }
                }
            }
            v += 1;
        }
        let ghost rank = choose|rank: Seq<nat>| is_ranking(rank, n, edge_set(edges@));
        let sorts = AllTopologicalSorts {
            n,
            successors,
            count,
            available,
            bases: Vec::new(),
            current: Vec::new(),
            done: false,
            levels: Ghost(Seq::empty()),
            rank: Ghost(rank),
            shown: Ghost(Set::empty()),
        };
        proof {
            assert(sorts.placed(0) =~= Set::empty());
            assert forall|a: int, k: int| 0 <= a <= n && 0 <= k < sorts.successors@[a]@.len() implies rank[a]
                < rank[(#[trigger] sorts.successors@[a]@[k]) as int] by {
                let b = sorts.successors@[a]@[k];
                assert(sorts.successors@[a]@.contains(b));
                lemma_occurrences_positive(sorts.successors@[a]@, b);
                let j = choose|j: int| 0 <= j < edges@.len() && (#[trigger] edges@[j])[0] == a as usize && edges@[j][1] == b;
                assert(edge_set(edges@).contains((a as usize, b)));
            }
            assert forall|v: usize| v <= n implies #[trigger] indegree(
                sorts.successors@,
                Set::empty(),
                v,
            ) <= u32::MAX by {
                assert(sorts.count@[v as int] <= u32::MAX);
            }
            assert forall|v: usize|
                1 <= v <= n && #[trigger] indegree(sorts.successors@, Set::empty(), v) == 0 implies sorts.available@.contains(
                v,
            ) by {
                assert(sorts.count@[v as int] == 0);
            }
            assert(sorts.edges() =~= edge_set(edges@)) by {
                assert forall|e: (usize, usize)| sorts.edges().contains(e) <==> edge_set(edges@).contains(e) by {
                    if edge_set(edges@).contains(e) {
                        let j = choose|j: int| 0 <= j < edges@.len() && (#[trigger] edges@[j])[0] == e.0 && edges@[j][1] == e.1;
                        assert(e.0 <= n);
                    }
                }
            }
        }
        sorts
    }

    /// Starts the enumeration on the graph with the nodes `1..=n` and the given
    /// `[from, to]` edges, if it has topological sorts to enumerate: there is
    /// no enumeration if an edge names a node that is none of `1..=n`, if the
    /// graph has a cycle, or if there are more nodes or edges than can be
    /// counted.
    pub fn try_new(n: usize, edges: &[[usize; 2]]) -> (sorts: Option<Self>)
        ensures
            sorts is Some <==> n < usize::MAX && edges@.len() <= u32::MAX && edges_in_range(n, edges@)
                && is_acyclic(n, edge_set(edges@)),
            sorts matches Some(sorts) ==> {
                &&& sorts.wf()
                &&& sorts.node_count() == n
                &&& sorts.edges() == edge_set(edges@)
                &&& sorts.order() == Seq::<usize>::empty()
                &&& sorts.shown() == Set::<Seq<usize>>::empty()
                &&& !sorts.is_done()
            },
    {
        if n == usize::MAX || edges.len() > 0xffff_ffff {
            return None;
        }
        if !in_range(n, edges) {
            return None;
        }
        if !has_no_cycle(n, edges) {
            return None;
        }
        Some(Self::new(n, edges))
    }

    /// A sort that begins as the sort that is being built goes on with a node
    /// that could be placed next.
    proof fn lemma_next_is_candidate(&self, l: Seq<usize>, i: int)
        requires
            self.common(),
            is_linear_extension(l, self.n, self.edges()),
            0 <= i < self.levels@.len(),
            i <= self.current@.len(),
            i < self.n,
            l.take(i) == self.current@.take(i),
        ensures
            self.levels@[i].orig.contains(l[i]),
    {
        let succ = self.successors@;
        let placed = self.placed(i);
        let v = l[i];
        assert(self.level_ok(i));
        assert(l.len() == self.n);
        assert(1 <= l[i] <= self.n);
        if placed.contains(v) {
            let j = choose|j: int| 0 <= j < i && j < self.current@.len() && self.current@[j] == v;
            assert(l.take(i)[j] == l[j]);
            assert(self.current@.take(i)[j] == self.current@[j]);
            assert(l[j] != l[i]);
        }
        assert forall|u: usize| u < succ.len() && !placed.contains(u) implies occurrences(
            #[trigger] succ[u as int]@,
            v,
        ) == 0 by {
            if occurrences(succ[u as int]@, v) > 0 {
                assert(self.edges().contains((u, v)));
                assert(u >= 1) by {
                    if u == 0 {
                        lemma_occurrences_positive(succ[0]@, v);
                    }
                }
                lemma_sort_holds_every_node(l, self.n, self.edges(), u);
                let at = choose|at: int| 0 <= at < l.len() && l[at] == u;
                assert(self.edges().contains((l[at], l[i])));
                assert(at < i);
                assert(l.take(i)[at] == l[at]);
                assert(self.current@.take(i)[at] == self.current@[at]);
                assert(self.current@[at] == u);
            }
        }
        lemma_indegree_zero(succ, placed, v, succ.len());
        assert(indegree(succ, placed, v) == 0);
    }

    /// The sort that has been built lies in no part of the search that is done
    /// with.
    proof fn lemma_current_is_new(&self)
        requires
            self.common(),
            self.current@.len() == self.n,
        ensures
            !self.covered(self.current@),
    {
        if self.covered(self.current@) {
            let i = choose|i: int| #[trigger] self.covers_at(self.current@, i);
            let lv = self.levels@[i];
            assert(self.level_ok(i));
            let a = choose|a: int| 0 <= a < lv.orig.len() && lv.orig.len() - lv.k <= a && #[trigger] lv.orig[a]
                == self.current@[i];
            assert(lv.orig[a] == lv.orig[lv.orig.len() - lv.k - 1]);
        }
    }

    /// Placing a node leaves the parts of the search that are done with as
    /// they are.
    proof fn lemma_covered_advance(&self, post: &Self, q: usize, l: Seq<usize>)
        requires
            post.current@ == self.current@.push(q),
            self.levels@.len() == self.current@.len() || self.levels@.len() == self.current@.len() + 1,
            post.levels@.len() == self.current@.len() + 1,
            forall|i: int| 0 <= i < self.current@.len() ==> post.levels@[i] == self.levels@[i],
            self.levels@.len() == self.current@.len() ==> post.levels@[self.current@.len() as int].k == 0,
            self.levels@.len() == self.current@.len() + 1 ==> post.levels@[self.current@.len() as int].orig
                == self.levels@[self.current@.len() as int].orig && post.levels@[self.current@.len() as int].k
                == self.levels@[self.current@.len() as int].k,
        ensures
            post.covered(l) <==> self.covered(l),
    {
        let len = self.current@.len() as int;
        if post.covered(l) {
            let i = choose|i: int| #[trigger] post.covers_at(l, i);
            assert(post.current@.take(i) =~= self.current@.take(i));
            if i == len {
                let lv = post.levels@[len];
                let a = choose|a: int| 0 <= a < lv.orig.len() && lv.orig.len() - lv.k <= a && #[trigger] lv.orig[a]
                    == l[i];
                assert(self.levels@[len].tried().contains(l[i])) by {
                    assert(self.levels@[len].orig[a] == l[i]);
                }
            }
            assert(self.covers_at(l, i));
        }
        if self.covered(l) {
            let i = choose|i: int| #[trigger] self.covers_at(l, i);
            assert(post.current@.take(i) =~= self.current@.take(i));
            if i == len {
                let lv = self.levels@[len];
                let a = choose|a: int| 0 <= a < lv.orig.len() && lv.orig.len() - lv.k <= a && #[trigger] lv.orig[a]
                    == l[i];
                assert(post.levels@[len].tried().contains(l[i])) by {
                    assert(post.levels@[len].orig[a] == l[i]);
                }
            }
            assert(post.covers_at(l, i));
        }
    }

    /// When every candidate of the last position has been tried, every sort
    /// that begins with the nodes before it has been shown.
    proof fn lemma_back_exhausted(&self, post: &Self, l: Seq<usize>)
        requires
            self.common(),
            self.fresh(),
            self.tally_closed(),
            self.current@.len() >= 1,
            post.n == self.n,
            post.successors == self.successors,
            post.shown == self.shown,
            post.current@ == self.current@.drop_last(),
            post.levels@ == self.levels@.drop_last(),
            self.levels@.last().k + 1 == self.levels@.last().orig.len(),
        ensures
            post.shown@.contains(l) <==> is_linear_extension(l, post.n, post.edges()) && (post.covered(l)
                || l.take(post.current@.len() as int) == post.current@),
    {
        let len = self.current@.len() as int;
        let top = len - 1;
        let lv = self.levels@[top];
        let m = lv.orig.len() as int;
        assert(self.level_ok(top));
        assert(post.edges() == self.edges());
        assert(self.current@.take(top) =~= post.current@);
        if self.shown@.contains(l) {
            if self.covered(l) {
                let i = choose|i: int| #[trigger] self.covers_at(l, i);
                if i < top {
                    assert(post.current@.take(i) =~= self.current@.take(i));
                    assert(post.covers_at(l, i));
                }
            } else {
                assert(l.take(top) =~= self.current@.take(top));
            }
        }
        if is_linear_extension(l, post.n, post.edges()) {
            if post.covered(l) {
                let i = choose|i: int| #[trigger] post.covers_at(l, i);
                assert(post.current@.take(i) =~= self.current@.take(i));
                assert(self.covers_at(l, i));
            } else if l.take(top) == post.current@ {
                self.lemma_next_is_candidate(l, top);
                let a = choose|a: int| 0 <= a < m && lv.orig[a] == l[top];
                if a == m - lv.k - 1 {
                    assert(l.take(len) =~= self.current@) by {
                        assert forall|j: int| 0 <= j < len implies l.take(len)[j] == self.current@[j] by {
                            if j < top {
                                assert(l.take(top)[j] == post.current@[j]);
                            }
                        }
                    }
                } else {
                    assert(lv.tried().contains(l[top]));
                    assert(self.covers_at(l, top));
                }
            }
        }
    }

    /// When the last position is turned to its next candidate, the sorts that
    /// went on with the candidate before are done with.
    proof fn lemma_back_turned(&self, post: &Self, l: Seq<usize>)
        requires
            self.common(),
            self.fresh(),
            self.tally_closed(),
            self.current@.len() >= 1,
            post.n == self.n,
            post.successors == self.successors,
            post.shown == self.shown,
            post.current@ == self.current@.drop_last(),
            post.levels@ == self.levels@.update(
                self.current@.len() - 1,
                Level {
                    orig: self.levels@.last().orig,
                    k: self.levels@.last().k + 1,
                    enabled: self.levels@.last().enabled,
                },
            ),
            self.levels@.last().k + 1 < self.levels@.last().orig.len(),
        ensures
            post.shown@.contains(l) <==> is_linear_extension(l, post.n, post.edges()) && post.covered(l),
    {
        let len = self.current@.len() as int;
        let top = len - 1;
        let lv = self.levels@[top];
        let after = post.levels@[top];
        let m = lv.orig.len() as int;
        assert(self.level_ok(top));
        assert(post.edges() == self.edges());
        assert(self.current@.take(top) =~= post.current@);
        assert(post.current@.take(top) =~= post.current@);
        if self.shown@.contains(l) {
            if self.covered(l) {
                let i = choose|i: int| #[trigger] self.covers_at(l, i);
                assert(post.current@.take(i) =~= self.current@.take(i));
                if i == top {
                    let a = choose|a: int| 0 <= a < m && m - lv.k <= a && #[trigger] lv.orig[a] == l[i];
                    assert(after.orig[a] == l[i]);
                    assert(after.tried().contains(l[i]));
                }
                assert(post.covers_at(l, i));
            } else {
                assert(l.take(top) =~= self.current@.take(top));
                assert(l[top] == l.take(len)[top]);
                assert(after.orig[m - lv.k - 1] == l[top]);
                assert(after.tried().contains(l[top]));
                assert(post.covers_at(l, top));
            }
        }
        if is_linear_extension(l, post.n, post.edges()) && post.covered(l) {
            let i = choose|i: int| #[trigger] post.covers_at(l, i);
            assert(post.current@.take(i) =~= self.current@.take(i));
            if i == top {
                let a = choose|a: int| 0 <= a < m && m - (lv.k + 1) <= a && #[trigger] after.orig[a] == l[i];
                if a == m - lv.k - 1 {
                    assert(l.take(len) =~= self.current@) by {
                        assert forall|j: int| 0 <= j < len implies l.take(len)[j] == self.current@[j] by {
                            if j < top {
                                assert(l.take(top)[j] == post.current@[j]);
                            }
                        }
                    }
                } else {
                    assert(lv.orig[a] == l[i]);
                    assert(lv.tried().contains(l[i]));
                    assert(self.covers_at(l, top));
                }
            } else {
                assert(self.covers_at(l, i));
            }
        }
    }

    /// A placed node has no unplaced predecessor.
    proof fn lemma_placed_zero(&self)
        requires
            graph_ok(self.successors@, self.rank@, self.n),
            counts_ok(self.count@, self.successors@, self.placed(self.current@.len() as int), self.n),
            self.current_ok(),
            self.levels_ok(),
            self.levels@.len() >= self.current@.len(),
        ensures
            forall|x: usize|
                x <= self.n && self.placed(self.current@.len() as int).contains(x) ==> (
                #[trigger] self.count@[x as int]) == 0,
    {
        let len = self.current@.len() as int;
        assert forall|x: usize| x <= self.n && self.placed(len).contains(x) implies (
        #[trigger] self.count@[x as int]) == 0 by {
            let i = choose|i: int| 0 <= i < len && i < self.current@.len() && self.current@[i] == x;
            assert(self.level_ok(i));
            let lv = self.levels@[i];
            assert(lv.orig[lv.orig.len() - lv.k - 1] == x);
            assert(indegree(self.successors@, self.placed(i), x) == 0);
            assert forall|y: usize| self.placed(i).contains(y) implies self.placed(len).contains(y) by {
                let j = choose|j: int| 0 <= j < i && j < self.current@.len() && self.current@[j] == y;
                assert(0 <= j < len && self.current@[j] == y);
            }
            lemma_indegree_monotone(
                self.successors@,
                self.placed(i),
                self.placed(len),
                x,
                self.successors@.len(),
            );
        }
    }

    /// A finished sort is a linear extension.
    proof fn lemma_linear_extension(&self)
        requires
            self.common(),
            self.fresh(),
            self.current@.len() == self.n,
        ensures
            is_linear_extension(self.current@, self.n, self.edges()),
    {
        let order = self.current@;
        assert forall|i: int, j: int|
            0 <= i < order.len() && 0 <= j < order.len() && #[trigger] self.edges().contains(
                (order[i], order[j]),
            ) implies i < j by {
            assert(self.level_ok(j));
            let lv = self.levels@[j];
            assert(lv.orig[lv.orig.len() - lv.k - 1] == order[j]);
            assert(indegree(self.successors@, self.placed(j), order[j]) == 0);
            if !self.placed(j).contains(order[i]) {
                lemma_indegree_bounds(
                    self.successors@,
                    self.placed(j),
                    order[i],
                    order[j],
                    self.successors@.len(),
                );
            }
            let i2 = choose|i2: int| 0 <= i2 < j && i2 < order.len() && order[i2] == order[i];
            assert(i2 == i);
        }
    }

    /// Steps back from a finished position to the last one that has a
    /// candidate left, and turns the deque to it. Returns whether there is
    /// none.
    fn backtrack(&mut self) -> (exhausted: bool)
        requires
            !old(self).done,
            old(self).common(),
            old(self).fresh(),
            old(self).n > 0 ==> old(self).tally_closed(),
            old(self).n == 0 ==> old(self).tally_open(),
        ensures
            final(self).n == old(self).n,
            final(self).successors == old(self).successors,
            final(self).rank == old(self).rank,
            final(self).shown == old(self).shown,
            !exhausted ==> final(self).tally_open(),
            exhausted ==> final(self).tally_done(),
            !final(self).done,
            graph_ok(final(self).successors@, final(self).rank@, final(self).n),
            !exhausted ==> final(self).common() && final(self).turned() && final(self).current@.len()
                < final(self).n,
            old(self).current@.len() == 0 ==> exhausted,
    {
        while self.current.len() > 0
            invariant
                self.common(),
                self.fresh(),
                !self.done,
                self.current@.len() <= old(self).current@.len(),
                self.n == old(self).n,
                self.successors == old(self).successors,
                self.rank == old(self).rank,
                self.shown == old(self).shown,
                self.n > 0 ==> self.tally_closed(),
                self.n == 0 ==> self.tally_open(),
            decreases self.current@.len(),
        {
            let ghost len = self.current@.len() as int;
            let ghost top = len - 1;
            let ghost lv = self.levels@[top];
            let ghost before = self.current@;
            let ghost placed_lo = self.placed(top);
            let ghost placed_hi = self.placed(len);
            let ghost m = lv.orig.len() as int;
            let ghost pre = *self;
            proof {
                assert(self.level_ok(top));
                assert(lv.orig[m - lv.k - 1] == before[top]);
                assert(forall|i: int|
                    0 <= i < self.available@.len() ==> 1 <= #[trigger] self.available@[i] <= self.n);
            }
            let q = self.current.pop().unwrap();
            proof {
                assert(self.current@ =~= before.take(top));
                assert(before =~= self.current@.push(q));
                lemma_prefix_set_push(self.current@, q);
                lemma_prefix_set_stable(before, self.current@, top);
                assert(placed_hi == self.placed(top).insert(q));
                assert(placed_lo == self.placed(top));
                if placed_lo.contains(q) {
                    let j = choose|j: int| 0 <= j < top && j < before.len() && before[j] == q;
                    assert(before[j] == before[top]);
                }
                lemma_rotated_frontier(lv.orig, lv.k, self.successors@, placed_lo, self.n);
            }
            restore(
                &self.successors,
                &mut self.count,
                q,
                Ghost(placed_lo),
                Ghost(self.rank@),
                Ghost(self.n),
            );
            let ghost mut j: int = lv.enabled.len() as int;
            proof {
                assert(lv.enabled.take(j) =~= lv.enabled);
            }
            loop
                invariant
                    0 <= j <= lv.enabled.len(),
                    self.bases == pre.bases,
                    self.levels == pre.levels,
                    self.current@ == before.take(top),
                    self.n == pre.n,
                    self.successors == pre.successors,
                    self.rank == pre.rank,
                    self.done == pre.done,
                    self.shown == pre.shown,
                    self.available@ == lv.rest() + lv.enabled.take(j),
                    graph_ok(self.successors@, self.rank@, self.n),
                    counts_ok(self.count@, self.successors@, placed_lo, self.n),
                    is_frontier(rotated(lv.orig, lv.k), self.successors@, placed_lo, self.n),
                    rotated(lv.orig, lv.k).len() == lv.orig.len(),
                    lv.k < lv.orig.len(),
                    1 <= q <= self.n,
                    !placed_lo.contains(q),
                    forall|i: int|
                        0 <= i < lv.enabled.len() ==> occurrences(
                            self.successors@[q as int]@,
                            #[trigger] lv.enabled[i],
                        ) > 0,
                    forall|i: int|
                        0 <= i < self.available@.len() ==> 1 <= #[trigger] self.available@[i] <= self.n,
                ensures
                    self.available@ == lv.rest(),
                decreases j,
            {
                if self.available.len() == 0 {
                    proof {
                        assert(j == 0);
                    }
                    break ;
                }
                let b = self.available[self.available.len() - 1];
                proof {
                    if j > 0 {
                        assert(b == lv.enabled[j - 1]);
                        lemma_indegree_bounds(
                            self.successors@,
                            placed_lo,
                            q,
                            b,
                            self.successors@.len(),
                        );
                    } else {
                        assert(lv.enabled.take(0) =~= Seq::<usize>::empty());
                        assert(self.available@ =~= lv.rest());
                        assert(b == rotated(lv.orig, lv.k)[lv.rest().len() - 1]);
                    }
                }
                if self.count[b] == 0 {
                    proof {
                        assert(j == 0);
                    }
                    break ;
                }
                self.available.pop_back();
                proof {
                    assert(lv.enabled.take(j - 1) =~= lv.enabled.take(j).drop_last());
                    assert(self.available@ =~= lv.rest() + lv.enabled.take(j - 1));
                    j = j - 1;
                }
            }
            self.available.push_front(q);
            proof {
                assert(q == lv.orig[m - lv.k - 1]);
                assert(self.available@ =~= rotated(lv.orig, lv.k + 1));
                lemma_rotated_frontier(lv.orig, lv.k + 1, self.successors@, placed_lo, self.n);
            }
            let back = self.available[self.available.len() - 1];
            let base = self.bases[self.bases.len() - 1];
            if back == base {
                self.bases.pop();
                self.levels = Ghost(self.levels@.drop_last());
                proof {
                    assert(lv.k + 1 == m) by {
                        if lv.k + 1 < m {
                            assert(back == lv.orig[m - lv.k - 2]);
                            assert(base == lv.orig[m - 1]);
                        }
                    }
                    assert(self.available@ == lv.orig);
                    assert forall|i: int| 0 <= i < self.levels@.len() implies self.level_ok(i) by {
                        assert(pre.level_ok(i));
                        lemma_prefix_set_stable(before, self.current@, i);
                    }
                    if top >= 1 {
                        assert(pre.level_ok(top - 1));
                    }
                    assert(self.current@ =~= pre.current@.drop_last());
                    assert(pre.levels@.last() == lv);
                    assert forall|l: Seq<usize>| #[trigger]
                        self.shown@.contains(l) <==> is_linear_extension(l, self.n, self.edges()) && (
                        self.covered(l) || l.take(self.current@.len() as int) == self.current@) by {
                        pre.lemma_back_exhausted(self, l);
                    }
                }
            } else {
                self.levels = Ghost(
                    self.levels@.update(top, Level { orig: lv.orig, k: lv.k + 1, enabled: lv.enabled }),
                );
                proof {
                    assert(lv.k + 1 < m) by {
                        if lv.k + 1 == m {
                            assert(back == lv.orig[m - 1]);
                        }
                    }
                    assert forall|i: int| 0 <= i < self.levels@.len() implies self.level_ok(i) by {
                        assert(pre.level_ok(i));
                        lemma_prefix_set_stable(before, self.current@, i);
                    }
                    assert(self.current@ =~= pre.current@.drop_last());
                    assert(pre.levels@.last() == lv);
                    assert forall|l: Seq<usize>| #[trigger]
                        self.shown@.contains(l) <==> is_linear_extension(l, self.n, self.edges())
                            && self.covered(l) by {
                        pre.lemma_back_turned(self, l);
                    }
                }
                return false;
            }
        }
        proof {
            assert forall|l: Seq<usize>| #[trigger]
                self.shown@.contains(l) <==> is_linear_extension(l, self.n, self.edges()) && self.n > 0 by {
                assert(l.take(0) =~= self.current@);
                if self.covered(l) {
                    let i = choose|i: int| #[trigger] self.covers_at(l, i);
                }
                if is_linear_extension(l, self.n, self.edges()) && self.n == 0 {
                    assert(!self.covered(l));
                }
            }
        }
        true
    }

    /// Fills the positions that are still open, each with the node at the back
    /// of the deque.
    fn advance(&mut self)
        requires
            !old(self).done,
            old(self).common(),
            old(self).fresh() || old(self).turned(),
            old(self).turned() ==> old(self).current@.len() < old(self).n,
            old(self).tally_open(),
        ensures
            final(self).n == old(self).n,
            final(self).successors == old(self).successors,
            final(self).rank == old(self).rank,
            final(self).shown == old(self).shown,
            final(self).tally_open(),
            !final(self).done,
            final(self).common(),
            final(self).fresh(),
            final(self).current@.len() == final(self).n,
    {
        while self.current.len() < self.n
            invariant
                self.common(),
                self.fresh() || self.turned(),
                self.turned() ==> self.current@.len() < self.n,
                !self.done,
                self.n == old(self).n,
                self.successors == old(self).successors,
                self.rank == old(self).rank,
                self.shown == old(self).shown,
                self.tally_open(),
            decreases self.n - self.current@.len(),
        {
            let ghost len = self.current@.len() as int;
            let ghost placed = self.placed(len);
            let ghost deque = self.available@;
            let ghost was_fresh = self.levels@.len() == len;
            let ghost before = self.current@;
            let ghost levels_before = self.levels@;
            let ghost succ = self.successors@;
            let ghost pre = *self;
            proof {
                if was_fresh {
                    let v0 = lemma_some_node_unplaced(self.current@, self.n);
                    if placed.contains(v0) {
                        let j = choose|j: int| 0 <= j < len && j < before.len() && before[j] == v0;
                        assert(before.contains(v0));
                    }
                    let v = lemma_lowest_unplaced(self.rank@, placed, self.n, v0);
                    assert forall|u: usize| u < succ.len() && !placed.contains(u) implies occurrences(
                        #[trigger] succ[u as int]@,
                        v,
                    ) == 0 by {
                        if occurrences(succ[u as int]@, v) > 0 {
                            lemma_occurrences_positive(succ[u as int]@, v);
                            let idx = choose|idx: int|
                                0 <= idx < succ[u as int]@.len() && succ[u as int]@[idx] == v;
                            assert(self.rank@[u as int] < self.rank@[succ[u as int]@[idx] as int]);
                        }
                    }
                    lemma_indegree_zero(succ, placed, v, succ.len());
                    assert(indegree(succ, placed, v) == 0);
                    assert(deque.contains(v));
                } else {
                    assert(self.level_ok(len));
                    lemma_rotated_frontier(
                        levels_before[len].orig,
                        levels_before[len].k,
                        succ,
                        placed,
                        self.n,
                    );
                }
                self.lemma_placed_zero();
            }
            let q = self.available.pop_back().unwrap();
            proof {
                assert(deque =~= self.available@.push(q));
            }
            let enabled = release(
                &self.successors,
                &mut self.count,
                &mut self.available,
                q,
                Ghost(placed),
                Ghost(self.rank@),
                Ghost(self.n),
            );
            self.current.push(q);
            if self.bases.len() < self.current.len() {
                self.bases.push(q);
            }
            let ghost level = if was_fresh {
                Level { orig: deque, k: 0, enabled: enabled@ }
            } else {
                Level { orig: levels_before[len].orig, k: levels_before[len].k, enabled: enabled@ }
            };
            self.levels = Ghost(
                if was_fresh {
                    levels_before.push(level)
                } else {
                    levels_before.update(len, level)
                },
            );
            proof {
                lemma_prefix_set_push(before, q);
                assert(self.placed(len + 1) == placed.insert(q));
                assert(self.current@.no_duplicates()) by {
                    assert forall|a: int, b: int|
                        0 <= a < self.current@.len() && 0 <= b < self.current@.len() && a
                            != b implies self.current@[a] != self.current@[b] by {
                        if a == len {
                            if self.current@[b] == q {
                                assert(before[b] == q);
                                assert(placed.contains(q));
                            }
                        } else if b == len {
                            if self.current@[a] == q {
                                assert(before[a] == q);
                                assert(placed.contains(q));
                            }
                        } else {
                            assert(before[a] != before[b]);
                        }
                    }
                }
                assert(deque[deque.len() - 1] == q);
                lemma_rotated_frontier(level.orig, level.k, succ, placed, self.n);
                assert(self.available@ == level.rest() + level.enabled);
                assert forall|i: int| 0 <= i < self.levels@.len() implies self.level_ok(i) by {
                    lemma_prefix_set_stable(before, self.current@, i);
                    if i < levels_before.len() {
                        assert(pre.level_ok(i));
                    }
                    if i < len {
                        assert(self.levels@[i] == levels_before[i]);
                    }
                }
                assert forall|l: Seq<usize>| #[trigger]
                    self.shown@.contains(l) <==> is_linear_extension(l, self.n, self.edges()) && self.covered(
                        l,
                    ) by {
                    pre.lemma_covered_advance(self, q, l);
                }
            }
        }
    }

    /// Moves on to the next topological sort, which `current` then shows.
    /// Returns `None` when every sort has been shown. The first call on a graph
    /// with nodes always shows a sort.
    pub fn next(&mut self) -> (step: Option<()>)
        requires
            old(self).wf(),
        ensures
            final(self).wf(),
            final(self).node_count() == old(self).node_count(),
            final(self).edges() == old(self).edges(),
            step is Some ==> is_linear_extension(
                final(self).order(),
                final(self).node_count(),
                final(self).edges(),
            ),
            step is None ==> final(self).is_done(),
            old(self).is_done() ==> step is None,
            old(self).node_count() == 0 ==> step is None,
            !old(self).is_done() && old(self).order().len() != old(self).node_count() ==> step is Some,
            step is Some ==> !old(self).shown().contains(final(self).order()) && final(self).shown()
                == old(self).shown().insert(final(self).order()),
            step is None ==> final(self).shown() == old(self).shown(),
            step is None && old(self).node_count() > 0 ==> forall|l: Seq<usize>|
                is_linear_extension(l, final(self).node_count(), final(self).edges()) ==> #[trigger] final(self).shown().contains(l),
            forall|l: Seq<usize>| #[trigger]
                final(self).shown().contains(l) ==> is_linear_extension(
                    l,
                    final(self).node_count(),
                    final(self).edges(),
                ),
    {
        if self.done {
            return None;
        }
        if self.current.len() == self.n {
            let exhausted = self.backtrack();
            if exhausted {
                self.done = true;
                return None;
            }
        }
        assert(self.n > 0);
        self.advance();
        proof {
            self.lemma_linear_extension();
            self.lemma_current_is_new();
        }
        let ghost pre = *self;
        self.shown = Ghost(self.shown@.insert(self.current@));
        proof {
            assert(self.edges() == pre.edges());
            assert(self.placed(self.current@.len() as int) == pre.placed(pre.current@.len() as int));
            assert forall|i: int| 0 <= i < self.levels@.len() implies self.level_ok(i) by {
                assert(pre.level_ok(i));
                assert(self.placed(i) == pre.placed(i));
            }
            assert(self.common());
            assert(self.fresh());
            assert forall|l: Seq<usize>| #[trigger]
                self.shown@.contains(l) <==> is_linear_extension(l, self.n, self.edges()) && (self.covered(l)
                    || l.take(self.current@.len() as int) == self.current@) by {
                if is_linear_extension(l, self.n, self.edges()) {
                    assert(l.take(self.n as int) =~= l);
                }
                if self.covered(l) {
                    let i = choose|i: int| #[trigger] self.covers_at(l, i);
                    assert(pre.covers_at(l, i));
                }
                if pre.covered(l) {
                    let i = choose|i: int| #[trigger] pre.covers_at(l, i);
                    assert(self.covers_at(l, i));
                }
                assert(pre.shown@.contains(l) <==> is_linear_extension(l, pre.n, pre.edges()) && pre.covered(
                    l,
                ));
            }
            assert(self.tally_closed());
        }
        Some(())
    }

    /// The sort that the last call of `next` has reached.
    pub fn current(&self) -> (order: &[usize])
        ensures
            order@ == self.order(),
    {
        self.current.as_slice()
    }
}

} // verus!
