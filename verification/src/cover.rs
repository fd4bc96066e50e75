//! No live box is ever lost.
//!
//! A heap is covered when every live box can be reached from a box that a
//! user holds a strong handle to, or from a candidate of the next collection.
//! A heap without boxes is covered, and every operation on handles and
//! every collection leaves a covered heap covered. So whatever the users of a heap
//! do, a box that none of them can reach any more is reached by the
//! collector.
use crate::cc::lemma_raise_sound;
use crate::graph::{
    all_nodes, cleared, edge_closed, has_edge, indegree, inflow, lemma_cleared_indegree, lemma_indegree_push,
    lemma_inflow_positive, lemma_inflow_same, lemma_inflow_single, lemma_inflow_split, lemma_occ_positive,
    lemma_reach_more_sources, lemma_reach_source, lemma_reach_step, lemma_reach_within, occ, reachable,
};
use crate::laws::{lemma_collect_keeps_held, lemma_collected_sound};
use crate::release::{
    lemma_live_destroyed, lemma_live_same, lemma_release_decrement, lemma_release_empty, lemma_release_held,
    lemma_release_start, lemma_same_graphs, lemma_weaks_dropped_inv, release_inv,
};
use crate::scan::lemma_marked_closed;
use crate::state::HeapState;
use crate::trace::Trace;
use crate::Color;
use vstd::prelude::*;

verus! {

/// What can be reached in one graph can be reached in another, or is gone,
/// if that holds of the sources and is handed on along the edges.
pub proof fn lemma_reach_transfer(
    adj_s: Seq<Seq<usize>>,
    src_s: Set<int>,
    adj_t: Seq<Seq<usize>>,
    src_t: Set<int>,
    gone: Set<int>,
    x: int,
)
    requires
        forall|b: int| src_s.contains(b) ==> gone.contains(b) || reachable(adj_t, src_t, b),
        forall|a: int, b: int|
            #[trigger] has_edge(adj_s, a, b) && (gone.contains(a) || reachable(adj_t, src_t, a))
                ==> gone.contains(b) || reachable(adj_t, src_t, b),
        reachable(adj_s, src_s, x),
    ensures
        gone.contains(x) || reachable(adj_t, src_t, x),
{
    let seen = Set::new(|y: int| gone.contains(y) || reachable(adj_t, src_t, y));
    assert(edge_closed(adj_s, seen)) by {
        assert forall|a: int, b: int| seen.contains(a) && has_edge(adj_s, a, b) implies seen.contains(b) by {}
    }
    lemma_reach_within(adj_s, src_s, seen, x);
}

/// A change that leaves the payloads alone and takes no box from the bases
/// leaves a covered heap covered.
pub proof fn lemma_covered_same_graph<T: Trace>(s: HeapState<T>, t: HeapState<T>)
    requires
        s.covered(),
        t.boxes.len() == s.boxes.len(),
        forall|i: int| s.has(i) ==> (#[trigger] t.boxes[i]).value == s.boxes[i].value,
        forall|b: int| s.bases().contains(b) ==> t.bases().contains(b),
    ensures
        t.covered(),
{
    lemma_same_graphs(s, t);
    assert forall|x: int| t.live(x) implies #[trigger] reachable(t.strong_adj(), t.bases(), x) by {
        assert(s.live(x));
        assert(reachable(s.strong_adj(), s.bases(), x));
        lemma_reach_more_sources(s.strong_adj(), s.bases(), t.bases(), x);
    }
}

/// A change of the header of one box leaves a covered heap covered if a
/// user holds the box afterwards, or the box is a candidate afterwards, or
/// its strong count, color and flag are as before.
pub proof fn lemma_covered_header<T: Trace>(s: HeapState<T>, t: HeapState<T>, i: int)
    requires
        s.covered(),
        s.has(i),
        t.boxes.len() == s.boxes.len(),
        forall|j: int| s.has(j) ==> (#[trigger] t.boxes[j]).value == s.boxes[j].value,
        forall|j: int|
            s.has(j) && j != i ==> (#[trigger] t.boxes[j]).strong == s.boxes[j].strong && t.boxes[j].color
                == s.boxes[j].color && t.boxes[j].buffered == s.boxes[j].buffered,
        t.held_strong(i) > 0 || (t.boxes[i].strong == s.boxes[i].strong && t.boxes[i].color
            == s.boxes[i].color && t.boxes[i].buffered == s.boxes[i].buffered) || t.candidates().contains(i),
    ensures
        t.covered(),
{
    lemma_same_graphs(s, t);
    assert forall|b: int| s.bases().contains(b) implies t.bases().contains(b) by {
        assert(t.owned_strong(b) == s.owned_strong(b));
    }
    lemma_covered_same_graph(s, t);
}

/// Making a strong handle leaves a covered heap covered.
pub proof fn lemma_covered_cloned<T: Trace>(s: HeapState<T>, i: int)
    requires
        s.sound(),
        s.covered(),
        s.has(i),
        s.boxes[i].strong > 0,
        s.boxes[i].strong + 1 < usize::MAX,
    ensures
        s.strong_cloned(i).covered(),
{
    lemma_raise_sound(s, i, s.strong_cloned(i).boxes[i]);
    assert(s.owned_strong(i) <= s.boxes[i].strong);
    lemma_covered_header(s, s.strong_cloned(i), i);
}

/// Making a weak handle leaves a covered heap covered.
pub proof fn lemma_covered_weak_cloned<T: Trace>(s: HeapState<T>, i: int)
    requires
        s.covered(),
        s.has(i),
    ensures
        s.weak_cloned(i).covered(),
{
    lemma_covered_header(s, s.weak_cloned(i), i);
}

/// Giving up a weak handle leaves a covered heap covered.
pub proof fn lemma_covered_weak_dropped<T: Trace>(s: HeapState<T>, w: int)
    requires
        s.covered(),
    ensures
        s.weak_dropped(w).covered(),
{
    if s.has(w) && s.boxes[w].weak > 0 {
        lemma_covered_header(s, s.weak_dropped(w), w);
    }
}

/// Giving up weak handles leaves a covered heap covered.
pub proof fn lemma_covered_weaks_dropped<T: Trace>(s: HeapState<T>, ws: Seq<usize>)
    requires
        s.covered(),
    ensures
        s.weaks_dropped(ws).covered(),
    decreases ws.len(),
{
    if ws.len() > 0 {
        lemma_covered_weak_dropped(s, ws.last() as int);
        lemma_covered_weaks_dropped(s.weak_dropped(ws.last() as int), ws.drop_last());
    }
}

/// A new box leaves a covered heap covered: the handles that its payload
/// owns lead from it to the boxes that the user held.
pub proof fn lemma_covered_new<T: Trace>(s: HeapState<T>, value: T)
    requires
        s.sound(),
        s.covered(),
        s.can_own(value),
        s.boxes.len() < usize::MAX,
    ensures
        s.with_new_box(HeapState::<T>::fresh(value)).covered(),
{
    let t = s.with_new_box(HeapState::<T>::fresh(value));
    let n = s.boxes.len() as int;
    let adj = s.strong_adj();
    let tadj = t.strong_adj();
    crate::cc::lemma_new_sound(s, value);
    assert(tadj =~= adj.push(value.strong_refs())) by {
        assert forall|j: int| 0 <= j < tadj.len() implies tadj[j] == adj.push(value.strong_refs())[j] by {
            assert(t.strong_refs(j) == if j < n {
                s.strong_refs(j)
            } else {
                value.strong_refs()
            });
        }
    }
    assert(t.bases().contains(n));
    lemma_reach_source(tadj, t.bases(), n);
    let gone = Set::<int>::empty();
    assert forall|b: int| s.bases().contains(b) implies gone.contains(b) || reachable(tadj, t.bases(), b) by {
        lemma_indegree_push(adj, value.strong_refs(), b);
        assert(t.owned_strong(b) == s.owned_strong(b) + occ(value.strong_refs(), b));
        if t.bases().contains(b) {
            lemma_reach_source(tadj, t.bases(), b);
        } else {
            assert(occ(value.strong_refs(), b) > 0);
            assert(has_edge(tadj, n, b));
            lemma_reach_step(tadj, t.bases(), n, b);
        }
    }
    assert forall|a: int, b: int|
        #[trigger] has_edge(adj, a, b) && (gone.contains(a) || reachable(tadj, t.bases(), a)) implies gone.contains(
        b,
    ) || reachable(tadj, t.bases(), b) by {
        assert(tadj[a] == adj[a]);
        assert(has_edge(tadj, a, b));
        lemma_reach_step(tadj, t.bases(), a, b);
    }
    assert forall|x: int| t.live(x) implies #[trigger] reachable(tadj, t.bases(), x) by {
        if x < n {
            assert(s.live(x));
            assert(reachable(adj, s.bases(), x));
            lemma_reach_transfer(adj, s.bases(), tadj, t.bases(), gone, x);
        }
    }
}

/// Giving up one of several strong handles leaves a covered heap covered:
/// the box becomes a candidate.
pub proof fn lemma_covered_decremented<T: Trace>(s: HeapState<T>, pend: Seq<usize>)
    requires
        release_inv(s, pend, Seq::empty()),
        s.covered(),
        pend.len() > 0,
        s.boxes[pend.last() as int].strong > 1,
    ensures
        s.decremented(pend.last()).covered(),
{
    let i = pend.last();
    assert(pend[pend.len() - 1] < s.boxes.len());
    let t = s.decremented(i);
    lemma_release_decrement(s, pend);
    assert(t.boxes[i as int].color == Color::Purple);
    assert(t.boxes[i as int].buffered);
    assert(t.candidates().contains(i as int));
    lemma_covered_header(s, t, i as int);
}

/// Emptying a box whose last strong handle goes leaves a covered heap
/// covered: the boxes that its payload owned handles to are held by whoever
/// gives those handles up next.
pub proof fn lemma_covered_emptied<T: Trace>(s: HeapState<T>, pend: Seq<usize>)
    requires
        release_inv(s, pend, Seq::empty()),
        s.covered(),
        pend.len() > 0,
        s.boxes[pend.last() as int].strong == 1,
    ensures
        s.emptied(pend.last() as int).covered(),
{
    let i = pend.last() as int;
    assert(pend[pend.len() - 1] < s.boxes.len());
    let t = s.emptied(i);
    let adj = s.strong_adj();
    let tadj = t.strong_adj();
    lemma_release_held(s, pend, Seq::empty());
    lemma_release_empty(s, pend);
    assert(tadj =~= cleared(adj, set![i])) by {
        assert forall|j: int| 0 <= j < adj.len() implies tadj[j] == cleared(adj, set![i])[j] by {
            assert(t.strong_refs(j) == cleared(adj, set![i])[j]);
        }
    }
    let gone = Set::new(|x: int| !t.live(x));
    assert forall|b: int| s.has(b) && b != i implies t.held_strong(b) >= s.held_strong(b) && t.held_strong(b)
        == s.held_strong(b) + occ(adj[i], b) by {
        lemma_cleared_indegree(adj, set![i], b);
        lemma_inflow_single(adj, i, b);
        assert(s.owned_strong(b) == indegree(adj, b));
        assert(t.owned_strong(b) == indegree(tadj, b));
    }
    assert forall|b: int| s.bases().contains(b) implies gone.contains(b) || reachable(tadj, t.bases(), b) by {
        if b != i {
            assert(t.held_strong(b) >= s.held_strong(b));
            assert(t.bases().contains(b));
            lemma_reach_source(tadj, t.bases(), b);
        }
    }
    assert forall|a: int, b: int|
        #[trigger] has_edge(adj, a, b) && (gone.contains(a) || reachable(tadj, t.bases(), a)) implies gone.contains(
        b,
    ) || reachable(tadj, t.bases(), b) by {
        lemma_occ_positive(adj[a], b);
        let k = choose|k: int| 0 <= k < adj[a].len() && adj[a][k] as int == b;
        assert(adj[a][k] < adj.len());
        if b != i {
            if a == i {
                assert(s.owned_strong(b) + occ(pend, b) <= s.boxes[b].strong);
                assert(t.held_strong(b) > 0);
                assert(t.bases().contains(b));
                lemma_reach_source(tadj, t.bases(), b);
            } else {
                assert(s.boxes[a].value.is_some()) by {
                    if s.boxes[a].value.is_none() {
                        assert(adj[a] =~= Seq::<usize>::empty());
                    }
                }
                assert(t.live(a));
                assert(tadj[a] == adj[a]);
                assert(has_edge(tadj, a, b));
                lemma_reach_step(tadj, t.bases(), a, b);
            }
        }
    }
    assert forall|x: int| t.live(x) implies #[trigger] reachable(tadj, t.bases(), x) by {
        assert(s.live(x));
        assert(reachable(adj, s.bases(), x));
        lemma_reach_transfer(adj, s.bases(), tadj, t.bases(), gone, x);
    }
}

/// Destroying the payload of a box whose last strong handle goes leaves a
/// covered heap covered.
pub proof fn lemma_covered_destroyed<T: Trace>(s: HeapState<T>, pend: Seq<usize>)
    requires
        release_inv(s, pend, Seq::empty()),
        s.covered(),
        pend.len() > 0,
        s.boxes[pend.last() as int].strong == 1,
    ensures
        s.destroyed(pend.last() as int).covered(),
{
    lemma_covered_emptied(s, pend);
    lemma_covered_weaks_dropped(s.emptied(pend.last() as int), s.weak_refs(pend.last() as int));
}

/// Giving up strong handles leaves a covered heap covered.
pub proof fn lemma_covered_released<T: Trace>(s: HeapState<T>, pend: Seq<usize>)
    requires
        release_inv(s, pend, Seq::empty()),
        s.covered(),
    ensures
        s.released(pend).covered(),
    decreases s.live_set().len(), pend.len(),
{
    if pend.len() > 0 {
        let i = pend.last();
        let rest = pend.drop_last();
        lemma_release_held(s, pend, Seq::empty());
        if s.boxes[i as int].strong > 1 {
            lemma_release_decrement(s, pend);
            lemma_covered_decremented(s, pend);
            lemma_live_same(s, s.decremented(i));
            lemma_covered_released(s.decremented(i), rest);
        } else {
            lemma_release_empty(s, pend);
            lemma_weaks_dropped_inv(s.emptied(i as int), rest + s.strong_refs(i as int), s.weak_refs(i as int));
            lemma_covered_destroyed(s, pend);
            lemma_live_destroyed(s, i as int);
            lemma_covered_released(s.destroyed(i as int), rest + s.strong_refs(i as int));
        }
    }
}

/// Giving up a strong handle leaves a covered heap covered.
pub proof fn lemma_covered_dropped<T: Trace>(s: HeapState<T>, i: usize)
    requires
        s.sound(),
        s.covered(),
        s.has(i as int),
        s.held_strong(i as int) >= 1,
    ensures
        s.dropped(i).covered(),
{
    lemma_release_start(s, i);
    lemma_covered_released(s, seq![i]);
}

/// A collection leaves a covered heap covered: what it keeps can still be
/// reached from a box that a user holds.
pub proof fn lemma_covered_collected<T: Trace>(s: HeapState<T>)
    requires
        s.sound(),
        s.covered(),
    ensures
        s.collected().covered(),
{
    let t = s.collected();
    let g = s.garbage();
    let m = s.marked();
    let adj = s.strong_adj();
    let tadj = t.strong_adj();
    lemma_collected_sound(s);
    lemma_marked_closed(s);
    assert(tadj =~= cleared(adj, g)) by {
        assert forall|j: int| 0 <= j < adj.len() implies tadj[j] == cleared(adj, g)[j] by {
            assert(t.strong_refs(j) == cleared(adj, g)[j]);
        }
    }
    assert forall|b: int| s.has(b) && s.held_strong(b) > 0 implies t.bases().contains(b) by {
        lemma_collect_keeps_held(s, b);
    }
    // What lies outside the marked boxes is reached as before.
    let outside = Set::new(|x: int| m.contains(x) || !s.live(x));
    assert forall|b: int| s.bases().contains(b) implies outside.contains(b) || reachable(tadj, t.bases(), b) by {
        if s.held_strong(b) > 0 {
            lemma_reach_source(tadj, t.bases(), b);
        } else {
            lemma_reach_source(adj, s.candidates(), b);
        }
    }
    assert forall|a: int, b: int|
        #[trigger] has_edge(adj, a, b) && (outside.contains(a) || reachable(tadj, t.bases(), a))
            implies outside.contains(b) || reachable(tadj, t.bases(), b) by {
        assert(s.live(a)) by {
            if s.boxes[a].value.is_none() {
                assert(adj[a] =~= Seq::<usize>::empty());
            }
        }
        if !m.contains(a) {
            assert(tadj[a] == adj[a]);
            assert(has_edge(tadj, a, b));
            lemma_reach_step(tadj, t.bases(), a, b);
        }
    }
    // What an anchor keeps alive is reached from a box that a user holds,
    // or from a box outside the marked ones.
    let kept = Set::new(|x: int| s.rescued().contains(x) && reachable(tadj, t.bases(), x));
    assert(edge_closed(adj, kept)) by {
        assert forall|a: int, b: int| kept.contains(a) && has_edge(adj, a, b) implies kept.contains(b) by {
            lemma_reach_step(adj, s.anchors(), a, b);
            assert(tadj[a] == adj[a]);
            assert(has_edge(tadj, a, b));
            lemma_reach_step(tadj, t.bases(), a, b);
        }
    }
    assert forall|a: int| s.anchors().contains(a) implies kept.contains(a) by {
        lemma_reach_source(adj, s.anchors(), a);
        if s.held_strong(a) > 0 {
            lemma_reach_source(tadj, t.bases(), a);
        } else {
            let rest = Set::new(|j: int| 0 <= j < adj.len() && !m.contains(j));
            lemma_inflow_split(adj, m, rest, a);
            assert forall|j: int| 0 <= j < adj.len() implies m.union(rest).contains(j) == all_nodes(adj).contains(
                j,
            ) by {}
            lemma_inflow_same(adj, m.union(rest), adj, all_nodes(adj), a);
            assert(s.owned_strong(a) == indegree(adj, a));
            assert(inflow(adj, rest, a) > 0);
            let z = lemma_inflow_positive(adj, rest, a);
            assert(has_edge(adj, z, a));
            assert(s.live(z)) by {
                if s.boxes[z].value.is_none() {
                    assert(adj[z] =~= Seq::<usize>::empty());
                }
            }
            assert(reachable(adj, s.bases(), z));
            lemma_reach_transfer(adj, s.bases(), tadj, t.bases(), outside, z);
            assert(tadj[z] == adj[z]);
            assert(has_edge(tadj, z, a));
            lemma_reach_step(tadj, t.bases(), z, a);
        }
    }
    assert forall|x: int| t.live(x) implies #[trigger] reachable(tadj, t.bases(), x) by {
        assert(s.live(x) && !g.contains(x));
        assert(reachable(adj, s.bases(), x));
        if m.contains(x) {
            lemma_reach_within(adj, s.anchors(), kept, x);
        } else {
            lemma_reach_transfer(adj, s.bases(), tadj, t.bases(), outside, x);
        }
    }
}

} // verus!
