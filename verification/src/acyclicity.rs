//! Deciding whether a directed graph has a cycle, layer by layer: again and
//! again every node is ranked none of whose predecessors is unranked. A graph
//! in which this comes to a halt before every node is ranked has a cycle.
use crate::all_topos::{edge_set, edges_in_range, is_acyclic, is_ranking};
use vstd::prelude::*;

verus! {

/// How many of the nodes below `upto` have no layer yet.
pub open spec fn unranked(layer: Seq<usize>, upto: int) -> nat
    decreases upto,
{
    if upto <= 0 {
        0
    } else {
        unranked(layer, upto - 1) + if layer[upto - 1] == 0 {
            1nat
        } else {
            0nat
        }
    }
}

proof fn lemma_unranked_update(layer: Seq<usize>, v: int, value: usize, upto: int)
    requires
        0 <= v < layer.len(),
        0 <= upto <= layer.len(),
        layer[v] == 0,
        value != 0,
    ensures
        unranked(layer, upto) == unranked(layer.update(v, value), upto) + if v < upto {
            1nat
        } else {
            0nat
        },
    decreases upto,
{
    if upto > 0 {
        lemma_unranked_update(layer, v, value, upto - 1);
    }
}

proof fn lemma_unranked_prefix(a: Seq<usize>, b: Seq<usize>, upto: int)
    requires
        0 <= upto <= a.len(),
        upto <= b.len(),
        forall|v: int| 0 <= v < upto ==> a[v] == b[v],
    ensures
        unranked(a, upto) == unranked(b, upto),
    decreases upto,
{
    if upto > 0 {
        lemma_unranked_prefix(a, b, upto - 1);
    }
}

proof fn lemma_unranked_some(layer: Seq<usize>, upto: int) -> (v: int)
    requires
        0 <= upto <= layer.len(),
        unranked(layer, upto) > 0,
    ensures
        0 <= v < upto,
        layer[v] == 0,
    decreases upto,
{
    if layer[upto - 1] == 0 {
        upto - 1
    } else {
        lemma_unranked_some(layer, upto - 1)
    }
}

proof fn lemma_unranked_none(layer: Seq<usize>, upto: int)
    requires
        0 <= upto <= layer.len(),
        unranked(layer, upto) == 0,
    ensures
        forall|v: int| 0 <= v < upto ==> #[trigger] layer[v] != 0,
    decreases upto,
{
    if upto > 0 {
        lemma_unranked_none(layer, upto - 1);
    }
}

/// Among the nodes without a layer one has the lowest rank.
proof fn lemma_lowest_unranked(rank: Seq<nat>, layer: Seq<usize>, n: usize, v0: int) -> (v: int)
    requires
        rank.len() == n + 1,
        layer.len() == n + 1,
        1 <= v0 <= n,
        layer[v0] == 0,
    ensures
        1 <= v <= n,
        layer[v] == 0,
        forall|u: int| 1 <= u <= n && layer[u] == 0 ==> rank[v] <= rank[u],
    decreases rank[v0],
{
    if exists|u: int| 1 <= u <= n && layer[u] == 0 && rank[u] < rank[v0] {
        let u = choose|u: int| 1 <= u <= n && layer[u] == 0 && rank[u] < rank[v0];
        lemma_lowest_unranked(rank, layer, n, u)
    } else {
        v0
    }
}

/// Whether every edge joins two nodes of `1..=n`.
pub fn in_range(n: usize, edges: &[[usize; 2]]) -> (ok: bool)
    ensures
        ok == edges_in_range(n, edges@),
{
    let mut i: usize = 0;
    while i < edges.len()
        invariant
            i <= edges@.len(),
            forall|j: int| 0 <= j < i ==> 1 <= (#[trigger] edges@[j])[0] <= n && 1 <= edges@[j][1] <= n,
        decreases edges@.len() - i,
    {
        if edges[i][0] < 1 || edges[i][0] > n || edges[i][1] < 1 || edges[i][1] > n {
            return false;
        }
        i += 1;
    }
    true
}

/// Whether the graph on the nodes `1..=n` with the given `[from, to]` edges
/// has no cycle.
pub fn has_no_cycle(n: usize, edges: &[[usize; 2]]) -> (acyclic: bool)
    requires
        n < usize::MAX,
        edges_in_range(n, edges@),
    ensures
        acyclic == is_acyclic(n, edge_set(edges@)),
{
    let mut layer: Vec<usize> = Vec::new();
    let mut v: usize = 0;
    while v <= n
        invariant
            n < usize::MAX,
            v <= n + 1,
            layer@.len() == v,
            forall|w: int| 1 <= w < v ==> #[trigger] layer@[w] == 0,
            v >= 1 ==> layer@[0] == 1,
            unranked(layer@, v as int) == if v == 0 {
                0
            } else {
                v - 1
            },
        decreases n + 1 - v,
    {
        let ghost before = layer@;
        layer.push(if v == 0 {
            1
        } else {
            0
        });
        proof {
            lemma_unranked_prefix(before, layer@, v as int);
        }
        v += 1;
    }
    let mut left: usize = n;
    let mut round: usize = 1;
    while left > 0
        invariant
            n < usize::MAX,
            edges_in_range(n, edges@),
            layer@.len() == n + 1,
            layer@[0] == 1,
            left == unranked(layer@, n + 1),
            1 <= round,
            round + left <= n + 1,
            forall|w: int| 0 <= w <= n ==> #[trigger] layer@[w] < round || (w == 0 && layer@[w] == 1),
            forall|i: int|
                0 <= i < edges@.len() && layer@[(#[trigger] edges@[i])[1] as int] != 0 ==> layer@[edges@[i][0] as int]
                    != 0 && layer@[edges@[i][0] as int] < layer@[edges@[i][1] as int],
        decreases left,
    {
        let mut blocked: Vec<bool> = Vec::new();
        let mut v: usize = 0;
        while v <= n
            invariant
                n < usize::MAX,
                v <= n + 1,
                blocked@.len() == v,
                forall|w: int| 0 <= w < v ==> !#[trigger] blocked@[w],
            decreases n + 1 - v,
        {
            blocked.push(false);
            v += 1;
        }
        let mut i: usize = 0;
        while i < edges.len()
            invariant
                i <= edges@.len(),
                edges_in_range(n, edges@),
                layer@.len() == n + 1,
                blocked@.len() == n + 1,
                forall|w: int|
                    0 <= w <= n ==> (#[trigger] blocked@[w] <==> exists|j: int|
                        0 <= j < i && (#[trigger] edges@[j])[1] == w && layer@[edges@[j][0] as int] == 0),
            decreases edges@.len() - i,
        {
            let from = edges[i][0];
            let to = edges[i][1];
            let ghost before = blocked@;
            if layer[from] == 0 {
                blocked[to] = true;
            }
            proof {
                assert forall|w: int| 0 <= w <= n implies (#[trigger] blocked@[w] <==> exists|j: int|
                    0 <= j < i + 1 && (#[trigger] edges@[j])[1] == w && layer@[edges@[j][0] as int] == 0) by {
                    if before[w] {
                        let j = choose|j: int|
                            0 <= j < i && (#[trigger] edges@[j])[1] == w && layer@[edges@[j][0] as int] == 0;
                        assert(0 <= j < i + 1 && edges@[j][1] == w && layer@[edges@[j][0] as int] == 0);
                    }
                    if blocked@[w] && !before[w] {
                        assert(edges@[i as int][1] == w && layer@[edges@[i as int][0] as int] == 0);
                    }
                    if exists|j: int|
                        0 <= j < i + 1 && (#[trigger] edges@[j])[1] == w && layer@[edges@[j][0] as int] == 0 {
                        let j = choose|j: int|
                            0 <= j < i + 1 && (#[trigger] edges@[j])[1] == w && layer@[edges@[j][0] as int]
                                == 0;
                        if j < i {
                            assert(before[w]);
                        }
                    }
                }
            }
            i += 1;
        }
        let ghost start = layer@;
        let start_left: usize = left;
        let mut v: usize = 1;
        while v <= n
            invariant
                n < usize::MAX,
                1 <= v <= n + 1,
                edges_in_range(n, edges@),
                layer@.len() == n + 1,
                layer@[0] == 1,
                start.len() == n + 1,
                blocked@.len() == n + 1,
                left == unranked(layer@, n + 1),
                left <= start_left,
                round + start_left <= n + 1,
                1 <= round,
                left == start_left ==> layer@ == start,
                left < start_left || v == 1 || forall|w: int| 1 <= w < v && start[w] == 0 ==> #[trigger] blocked@[w],
                forall|w: int|
                    0 <= w <= n ==> #[trigger] layer@[w] == start[w] || (start[w] == 0 && layer@[w] == round
                        && !blocked@[w] && 1 <= w < v),
                forall|w: int| 0 <= w <= n ==> #[trigger] start[w] < round || (w == 0 && start[w] == 1),
            decreases n + 1 - v,
        {
            if layer[v] == 0 && !blocked[v] {
                proof {
                    lemma_unranked_update(layer@, v as int, round, n + 1);
                    lemma_unranked_some(layer@, n + 1);
                }
                layer[v] = round;
                left -= 1;
            }
            v += 1;
        }
        if left == start_left {
            proof {
                // Nothing could be ranked: every node without a layer has a
                // predecessor without a layer, so that no ranking can be.
                if is_acyclic(n, edge_set(edges@)) {
                    let rank = choose|rank: Seq<nat>| is_ranking(rank, n, edge_set(edges@));
                    let some = lemma_unranked_some(layer@, n + 1);
                    let lowest = lemma_lowest_unranked(rank, layer@, n, some);
                    assert(blocked@[lowest]);
                    let j = choose|j: int|
                        0 <= j < edges@.len() && (#[trigger] edges@[j])[1] == lowest && layer@[edges@[j][0] as int]
                            == 0;
                    let from = edges@[j][0];
                    assert(edge_set(edges@).contains((from, lowest as usize)));
                    assert(rank[from as int] < rank[lowest]);
                }
            }
            return false;
        }
        proof {
            assert forall|i: int|
                0 <= i < edges@.len() && layer@[(#[trigger] edges@[i])[1] as int] != 0 implies layer@[edges@[i][0] as int]
                != 0 && layer@[edges@[i][0] as int] < layer@[edges@[i][1] as int] by {
                let from = edges@[i][0] as int;
                let to = edges@[i][1] as int;
                if start[to] == 0 {
                    assert(!blocked@[to]);
                    if start[from] == 0 {
                        assert(edges@[i][1] == to && start[edges@[i][0] as int] == 0);
                    }
                }
            }
        }
        round += 1;
    }
    proof {
        lemma_unranked_none(layer@, n + 1);
        let rank = Seq::new((n + 1) as nat, |w: int| layer@[w] as nat);
        assert forall|u: usize, v: usize|
            u <= n && v <= n && #[trigger] edge_set(edges@).contains((u, v)) implies rank[u as int]
            < rank[v as int] by {
            let i = choose|i: int| 0 <= i < edges@.len() && (#[trigger] edges@[i])[0] == u && edges@[i][1] == v;
            assert(layer@[edges@[i][1] as int] != 0);
        }
        assert(is_ranking(rank, n, edge_set(edges@)));
    }
    true
}

} // verus!
