//! Counting and reachability over adjacency lists.
//!
//! A graph is a sequence of rows: row `a` lists the nodes that node `a`
//! points to, once for each edge. Nodes are the indices of the rows.
use vstd::prelude::*;

verus! {

/// How often `x` occurs in `s`.
pub open spec fn occ(s: Seq<usize>, x: int) -> nat
    decreases s.len(),
{
    if s.len() == 0 {
        0
    } else {
        occ(s.drop_last(), x) + if s.last() as int == x {
            1nat
        } else {
            0nat
        }
    }
}

/// What occurs in one of two sequences occurs as often in the two put
/// together.
pub proof fn lemma_occ_add(a: Seq<usize>, b: Seq<usize>, x: int)
    ensures
        occ(a + b, x) == occ(a, x) + occ(b, x),
    decreases b.len(),
{
    if b.len() == 0 {
        assert(a + b =~= a);
    } else {
        assert((a + b).drop_last() =~= a + b.drop_last());
        lemma_occ_add(a, b.drop_last(), x);
    }
}

/// `x` occurs in `s` exactly when some position of `s` holds it.
pub proof fn lemma_occ_positive(s: Seq<usize>, x: int)
    ensures
        occ(s, x) > 0 <==> exists|k: int| 0 <= k < s.len() && s[k] as int == x,
    decreases s.len(),
{
    if s.len() > 0 {
        lemma_occ_positive(s.drop_last(), x);
        if occ(s, x) > 0 {
            if s.last() as int == x {
                assert(s[s.len() - 1] as int == x);
            } else {
                let k = choose|k: int| 0 <= k < s.drop_last().len() && s.drop_last()[k] as int == x;
                assert(s[k] as int == x);
            }
        }
        if exists|k: int| 0 <= k < s.len() && s[k] as int == x {
            let k = choose|k: int| 0 <= k < s.len() && s[k] as int == x;
            if k < s.len() - 1 {
                assert(s.drop_last()[k] as int == x);
            }
        }
    }
}

/// What a position of `s` holds occurs in `s`.
pub proof fn lemma_occ_at(s: Seq<usize>, k: int)
    requires
        0 <= k < s.len(),
    ensures
        occ(s, s[k] as int) > 0,
{
    lemma_occ_positive(s, s[k] as int);
}

/// The number of edges into `c` from the nodes below `k` that are in `from`.
pub open spec fn inflow_upto(adj: Seq<Seq<usize>>, from: Set<int>, c: int, k: int) -> nat
    decreases k,
{
    if k <= 0 {
        0
    } else {
        inflow_upto(adj, from, c, k - 1) + if from.contains(k - 1) {
            occ(adj[k - 1], c)
        } else {
            0nat
        }
    }
}

/// The number of edges into `c` from the nodes in `from`.
pub open spec fn inflow(adj: Seq<Seq<usize>>, from: Set<int>, c: int) -> nat {
    inflow_upto(adj, from, c, adj.len() as int)
}

/// Every node of the graph.
pub open spec fn all_nodes(adj: Seq<Seq<usize>>) -> Set<int> {
    Set::new(|i: int| 0 <= i < adj.len())
}

/// The number of edges into `c`.
pub open spec fn indegree(adj: Seq<Seq<usize>>, c: int) -> nat {
    inflow(adj, all_nodes(adj), c)
}

/// Every edge ends at a node of the graph.
pub open spec fn closed_graph(adj: Seq<Seq<usize>>) -> bool {
    forall|a: int, k: int| 0 <= a < adj.len() && 0 <= k < adj[a].len() ==> (#[trigger] adj[a][k]) < adj.len()
}

proof fn lemma_inflow_upto_same(
    adj1: Seq<Seq<usize>>,
    from1: Set<int>,
    adj2: Seq<Seq<usize>>,
    from2: Set<int>,
    c: int,
    k: int,
)
    requires
        k <= adj1.len(),
        k <= adj2.len(),
        forall|j: int| 0 <= j < k ==> from1.contains(j) == from2.contains(j),
        forall|j: int| 0 <= j < k && from1.contains(j) ==> adj1[j] == adj2[j],
    ensures
        inflow_upto(adj1, from1, c, k) == inflow_upto(adj2, from2, c, k),
    decreases k,
{
    if k > 0 {
        lemma_inflow_upto_same(adj1, from1, adj2, from2, c, k - 1);
    }
}

/// The count depends only on the rows of the nodes in `from`.
pub proof fn lemma_inflow_same(
    adj1: Seq<Seq<usize>>,
    from1: Set<int>,
    adj2: Seq<Seq<usize>>,
    from2: Set<int>,
    c: int,
)
    requires
        adj1.len() == adj2.len(),
        forall|j: int| 0 <= j < adj1.len() ==> from1.contains(j) == from2.contains(j),
        forall|j: int| 0 <= j < adj1.len() && from1.contains(j) ==> adj1[j] == adj2[j],
    ensures
        inflow(adj1, from1, c) == inflow(adj2, from2, c),
{
    lemma_inflow_upto_same(adj1, from1, adj2, from2, c, adj1.len() as int);
}

proof fn lemma_inflow_upto_insert(adj: Seq<Seq<usize>>, from: Set<int>, j: int, c: int, k: int)
    requires
        !from.contains(j),
        k <= adj.len(),
    ensures
        inflow_upto(adj, from.insert(j), c, k) == inflow_upto(adj, from, c, k) + if 0 <= j < k {
            occ(adj[j], c)
        } else {
            0nat
        },
    decreases k,
{
    if k > 0 {
        lemma_inflow_upto_insert(adj, from, j, c, k - 1);
    }
}

/// A node that joins `from` adds the edges of its row.
pub proof fn lemma_inflow_insert(adj: Seq<Seq<usize>>, from: Set<int>, j: int, c: int)
    requires
        !from.contains(j),
        0 <= j < adj.len(),
    ensures
        inflow(adj, from.insert(j), c) == inflow(adj, from, c) + occ(adj[j], c),
{
    lemma_inflow_upto_insert(adj, from, j, c, adj.len() as int);
}

/// A node that leaves `from` takes the edges of its row with it.
pub proof fn lemma_inflow_remove(adj: Seq<Seq<usize>>, from: Set<int>, j: int, c: int)
    requires
        from.contains(j),
        0 <= j < adj.len(),
    ensures
        inflow(adj, from.remove(j), c) + occ(adj[j], c) == inflow(adj, from, c),
{
    lemma_inflow_insert(adj, from.remove(j), j, c);
    assert(from.remove(j).insert(j) =~= from);
}

proof fn lemma_inflow_upto_subset(adj: Seq<Seq<usize>>, a: Set<int>, b: Set<int>, c: int, k: int)
    requires
        k <= adj.len(),
        forall|j: int| 0 <= j < k && a.contains(j) ==> b.contains(j),
    ensures
        inflow_upto(adj, a, c, k) <= inflow_upto(adj, b, c, k),
    decreases k,
{
    if k > 0 {
        lemma_inflow_upto_subset(adj, a, b, c, k - 1);
    }
}

/// More sources, more edges.
pub proof fn lemma_inflow_subset(adj: Seq<Seq<usize>>, a: Set<int>, b: Set<int>, c: int)
    requires
        forall|j: int| 0 <= j < adj.len() && a.contains(j) ==> b.contains(j),
    ensures
        inflow(adj, a, c) <= inflow(adj, b, c),
{
    lemma_inflow_upto_subset(adj, a, b, c, adj.len() as int);
}

proof fn lemma_inflow_upto_split(adj: Seq<Seq<usize>>, a: Set<int>, b: Set<int>, c: int, k: int)
    requires
        k <= adj.len(),
        forall|j: int| 0 <= j < k ==> !(a.contains(j) && b.contains(j)),
    ensures
        inflow_upto(adj, a.union(b), c, k) == inflow_upto(adj, a, c, k) + inflow_upto(adj, b, c, k),
    decreases k,
{
    if k > 0 {
        lemma_inflow_upto_split(adj, a, b, c, k - 1);
    }
}

/// The edges from two disjoint sets of sources add up.
pub proof fn lemma_inflow_split(adj: Seq<Seq<usize>>, a: Set<int>, b: Set<int>, c: int)
    requires
        forall|j: int| 0 <= j < adj.len() ==> !(a.contains(j) && b.contains(j)),
    ensures
        inflow(adj, a.union(b), c) == inflow(adj, a, c) + inflow(adj, b, c),
{
    lemma_inflow_upto_split(adj, a, b, c, adj.len() as int);
}

proof fn lemma_inflow_upto_zero(adj: Seq<Seq<usize>>, from: Set<int>, c: int, k: int)
    requires
        k <= adj.len(),
        forall|j: int| 0 <= j < k && from.contains(j) ==> occ(adj[j], c) == 0,
    ensures
        inflow_upto(adj, from, c, k) == 0,
    decreases k,
{
    if k > 0 {
        lemma_inflow_upto_zero(adj, from, c, k - 1);
    }
}

/// No edge from `from` into `c`: the count is zero.
pub proof fn lemma_inflow_zero(adj: Seq<Seq<usize>>, from: Set<int>, c: int)
    requires
        forall|j: int| 0 <= j < adj.len() && from.contains(j) ==> occ(adj[j], c) == 0,
    ensures
        inflow(adj, from, c) == 0,
{
    lemma_inflow_upto_zero(adj, from, c, adj.len() as int);
}

proof fn lemma_inflow_upto_at_least(adj: Seq<Seq<usize>>, from: Set<int>, j: int, c: int, k: int)
    requires
        k <= adj.len(),
        0 <= j < k,
        from.contains(j),
    ensures
        inflow_upto(adj, from, c, k) >= occ(adj[j], c),
    decreases k,
{
    if k - 1 > j {
        lemma_inflow_upto_at_least(adj, from, j, c, k - 1);
    }
}

/// The edges of one row of `from` are among those counted.
pub proof fn lemma_inflow_at_least(adj: Seq<Seq<usize>>, from: Set<int>, j: int, c: int)
    requires
        0 <= j < adj.len(),
        from.contains(j),
    ensures
        inflow(adj, from, c) >= occ(adj[j], c),
{
    lemma_inflow_upto_at_least(adj, from, j, c, adj.len() as int);
}

/// A positive count has a source in `from`.
pub proof fn lemma_inflow_positive(adj: Seq<Seq<usize>>, from: Set<int>, c: int) -> (j: int)
    requires
        inflow(adj, from, c) > 0,
    ensures
        0 <= j < adj.len(),
        from.contains(j),
        occ(adj[j], c) > 0,
{
    if forall|j: int| 0 <= j < adj.len() && from.contains(j) ==> occ(adj[j], c) == 0 {
        lemma_inflow_zero(adj, from, c);
        0
    } else {
        choose|j: int| 0 <= j < adj.len() && from.contains(j) && occ(adj[j], c) != 0
    }
}

/// The rows of `adj` with those of the nodes in `gone` emptied.
pub open spec fn cleared(adj: Seq<Seq<usize>>, gone: Set<int>) -> Seq<Seq<usize>> {
    Seq::new(
        adj.len(),
        |j: int|
            if gone.contains(j) {
                Seq::empty()
            } else {
                adj[j]
            },
    )
}

/// Emptying rows takes their edges, and no others, out of every count.
pub proof fn lemma_cleared_indegree(adj: Seq<Seq<usize>>, gone: Set<int>, c: int)
    ensures
        indegree(cleared(adj, gone), c) + inflow(adj, gone, c) == indegree(adj, c),
{
    let adj1 = cleared(adj, gone);
    let inside = Set::new(|j: int| 0 <= j < adj.len() && gone.contains(j));
    let outside = Set::new(|j: int| 0 <= j < adj.len() && !gone.contains(j));
    lemma_inflow_split(adj, inside, outside, c);
    lemma_inflow_split(adj1, inside, outside, c);
    assert forall|j: int| 0 <= j < adj.len() implies inside.union(outside).contains(j) == all_nodes(adj).contains(
        j,
    ) by {}
    lemma_inflow_same(adj, inside.union(outside), adj, all_nodes(adj), c);
    lemma_inflow_same(adj1, inside.union(outside), adj1, all_nodes(adj1), c);
    lemma_inflow_same(adj, inside, adj, gone, c);
    lemma_inflow_same(adj, outside, adj1, outside, c);
    assert forall|j: int| 0 <= j < adj1.len() && inside.contains(j) implies occ(adj1[j], c) == 0 by {
        assert(adj1[j] =~= Seq::<usize>::empty());
    }
    lemma_inflow_zero(adj1, inside, c);
}

/// The edges from one node are those of its row.
pub proof fn lemma_inflow_single(adj: Seq<Seq<usize>>, i: int, c: int)
    requires
        0 <= i < adj.len(),
    ensures
        inflow(adj, set![i], c) == occ(adj[i], c),
{
    lemma_inflow_zero(adj, Set::<int>::empty(), c);
    lemma_inflow_insert(adj, Set::<int>::empty(), i, c);
    assert(Set::<int>::empty().insert(i) =~= set![i]);
}

/// Another row for one node changes the counts by the edges of the two
/// rows.
pub proof fn lemma_indegree_update(adj: Seq<Seq<usize>>, i: int, row: Seq<usize>, c: int)
    requires
        0 <= i < adj.len(),
    ensures
        indegree(adj.update(i, row), c) + occ(adj[i], c) == indegree(adj, c) + occ(row, c),
{
    let adj2 = adj.update(i, row);
    lemma_cleared_indegree(adj, set![i], c);
    lemma_cleared_indegree(adj2, set![i], c);
    lemma_inflow_single(adj, i, c);
    lemma_inflow_single(adj2, i, c);
    assert(cleared(adj, set![i]) =~= cleared(adj2, set![i]));
}

/// A new node adds the edges of its row to the counts, and no others.
pub proof fn lemma_indegree_push(adj: Seq<Seq<usize>>, row: Seq<usize>, c: int)
    ensures
        indegree(adj.push(row), c) == indegree(adj, c) + occ(row, c),
{
    let adj2 = adj.push(row);
    lemma_inflow_upto_same(adj2, all_nodes(adj2), adj, all_nodes(adj), c, adj.len() as int);
    assert(adj2[adj.len() as int] == row);
}

/// `a` points to `b`.
pub open spec fn has_edge(adj: Seq<Seq<usize>>, a: int, b: int) -> bool {
    0 <= a < adj.len() && occ(adj[a], b) > 0
}

/// `p` is a walk along the edges of the graph.
pub open spec fn is_path(adj: Seq<Seq<usize>>, p: Seq<int>) -> bool {
    p.len() > 0 && forall|k: int| 0 <= k < p.len() - 1 ==> has_edge(adj, #[trigger] p[k], p[k + 1])
}

/// `p` is a walk from a node of `src` to `x`.
pub open spec fn path_to(adj: Seq<Seq<usize>>, src: Set<int>, x: int, p: Seq<int>) -> bool {
    is_path(adj, p) && src.contains(p[0]) && p.last() == x
}

/// Some walk leads from a node of `src` to `x`.
#[verifier::opaque]
pub open spec fn reachable(adj: Seq<Seq<usize>>, src: Set<int>, x: int) -> bool {
    exists|p: Seq<int>| path_to(adj, src, x, p)
}

/// The nodes that can be reached from `src`.
pub open spec fn reach_set(adj: Seq<Seq<usize>>, src: Set<int>) -> Set<int> {
    Set::new(|x: int| reachable(adj, src, x))
}

/// No edge leaves `s`.
pub open spec fn edge_closed(adj: Seq<Seq<usize>>, s: Set<int>) -> bool {
    forall|a: int, b: int| s.contains(a) && has_edge(adj, a, b) ==> s.contains(b)
}

/// A source can be reached.
pub proof fn lemma_reach_source(adj: Seq<Seq<usize>>, src: Set<int>, x: int)
    requires
        src.contains(x),
    ensures
        reachable(adj, src, x),
{
    reveal(reachable);
    assert(path_to(adj, src, x, seq![x]));
}

/// What a node that can be reached points to can be reached.
pub proof fn lemma_reach_step(adj: Seq<Seq<usize>>, src: Set<int>, a: int, b: int)
    requires
        reachable(adj, src, a),
        has_edge(adj, a, b),
    ensures
        reachable(adj, src, b),
{
    reveal(reachable);
    let p = choose|p: Seq<int>| path_to(adj, src, a, p);
    let q = p.push(b);
    assert forall|k: int| 0 <= k < q.len() - 1 implies has_edge(adj, #[trigger] q[k], q[k + 1]) by {
        if k < p.len() - 1 {
            assert(has_edge(adj, p[k], p[k + 1]));
        }
    }
    assert(path_to(adj, src, b, q));
}

/// A walk that starts in a set that no edge leaves stays in it.
proof fn lemma_path_stays(adj: Seq<Seq<usize>>, s: Set<int>, p: Seq<int>, k: int)
    requires
        is_path(adj, p),
        s.contains(p[0]),
        edge_closed(adj, s),
        0 <= k < p.len(),
    ensures
        s.contains(p[k]),
    decreases k,
{
    if k > 0 {
        lemma_path_stays(adj, s, p, k - 1);
        assert(has_edge(adj, p[k - 1], p[k - 1 + 1]));
    }
}

/// A set that holds the sources and that no edge leaves holds all that can
/// be reached.
pub proof fn lemma_reach_within(adj: Seq<Seq<usize>>, src: Set<int>, s: Set<int>, x: int)
    requires
        forall|a: int| src.contains(a) ==> s.contains(a),
        edge_closed(adj, s),
        reachable(adj, src, x),
    ensures
        s.contains(x),
{
    reveal(reachable);
    let p = choose|p: Seq<int>| path_to(adj, src, x, p);
    lemma_path_stays(adj, s, p, p.len() - 1);
}

/// Without a source nothing can be reached.
pub proof fn lemma_reach_none(adj: Seq<Seq<usize>>, src: Set<int>, x: int)
    requires
        forall|a: int| !src.contains(a),
    ensures
        !reachable(adj, src, x),
{
    reveal(reachable);
}

/// What can be reached from two sets of sources can be reached from one of
/// them.
pub proof fn lemma_reach_either(adj: Seq<Seq<usize>>, a: Set<int>, b: Set<int>, x: int)
    requires
        reachable(adj, a.union(b), x),
    ensures
        reachable(adj, a, x) || reachable(adj, b, x),
{
    reveal(reachable);
    let p = choose|p: Seq<int>| path_to(adj, a.union(b), x, p);
    if a.contains(p[0]) {
        assert(path_to(adj, a, x, p));
    } else {
        assert(path_to(adj, b, x, p));
    }
}

/// More sources reach more.
pub proof fn lemma_reach_more_sources(adj: Seq<Seq<usize>>, a: Set<int>, b: Set<int>, x: int)
    requires
        forall|i: int| a.contains(i) ==> b.contains(i),
        reachable(adj, a, x),
    ensures
        reachable(adj, b, x),
{
    reveal(reachable);
    let p = choose|p: Seq<int>| path_to(adj, a, x, p);
    assert(path_to(adj, b, x, p));
}

/// No edge leaves the set of the nodes that can be reached.
pub proof fn lemma_reach_set_closed(adj: Seq<Seq<usize>>, src: Set<int>)
    ensures
        edge_closed(adj, reach_set(adj, src)),
{
    let s = reach_set(adj, src);
    assert forall|a: int, b: int| s.contains(a) && has_edge(adj, a, b) implies s.contains(b) by {
        lemma_reach_step(adj, src, a, b);
    }
}

/// In a graph whose edges end at its nodes, what can be reached from nodes
/// of the graph is a node of the graph.
pub proof fn lemma_reach_in_graph(adj: Seq<Seq<usize>>, src: Set<int>, x: int)
    requires
        closed_graph(adj),
        forall|a: int| src.contains(a) ==> 0 <= a < adj.len(),
        reachable(adj, src, x),
    ensures
        0 <= x < adj.len(),
{
    let s = all_nodes(adj);
    assert forall|a: int, b: int| s.contains(a) && has_edge(adj, a, b) implies s.contains(b) by {
        lemma_occ_positive(adj[a], b);
        let k = choose|k: int| 0 <= k < adj[a].len() && adj[a][k] as int == b;
        assert(adj[a][k] < adj.len());
    }
    lemma_reach_within(adj, src, s, x);
}

} // verus!
