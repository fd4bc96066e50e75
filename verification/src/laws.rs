//! What holds of every heap and of every collection.
use crate::graph::{
    all_nodes, cleared, edge_closed, has_edge, indegree, inflow, lemma_cleared_indegree,
    lemma_inflow_at_least, lemma_inflow_positive, lemma_inflow_same, lemma_inflow_split, lemma_inflow_subset,
    lemma_inflow_zero, lemma_reach_either, lemma_reach_more_sources, lemma_reach_none, lemma_reach_source, lemma_reach_step,
    lemma_reach_within, occ, reachable,
};
use crate::scan::lemma_marked_closed;
use crate::state::{lemma_root_set_empty, root_set, HeapState};
use crate::sweep::{lemma_garbage_live, lemma_garbage_sealed};
use crate::trace::Trace;
use crate::Color;
use vstd::prelude::*;

verus! {

/// A box outside the garbage that has a strong handle keeps one when the
/// handles that the garbage owns are taken away.
pub proof fn lemma_survivor_held<T: Trace>(s0: HeapState<T>, c: int)
    requires
        s0.sound(),
        s0.has(c),
        !s0.garbage().contains(c),
        s0.boxes[c].strong > 0,
    ensures
        s0.boxes[c].strong - inflow(s0.strong_adj(), s0.garbage(), c) > 0,
{
    let adj = s0.strong_adj();
    let g = s0.garbage();
    lemma_marked_closed(s0);
    if inflow(adj, g, c) > 0 {
        let j = lemma_inflow_positive(adj, g, c);
        assert(has_edge(adj, j, c));
        assert(s0.marked().contains(c));
        assert(s0.rescued().contains(c));
        let held = Set::new(
            |i: int| s0.rescued().contains(i) && s0.boxes[i].strong - inflow(adj, g, i) > 0,
        );
        assert(edge_closed(adj, held)) by {
            assert forall|a: int, b: int| held.contains(a) && has_edge(adj, a, b) implies held.contains(b) by {
                lemma_reach_step(adj, s0.anchors(), a, b);
                lemma_cleared_indegree(adj, g, b);
                let adj1 = cleared(adj, g);
                assert(adj1[a] == adj[a]);
                lemma_inflow_at_least(adj1, all_nodes(adj1), a, b);
                assert(s0.owned_strong(b) == indegree(adj, b));
                crate::mark::lemma_edge_target_held(s0, a, b);
                assert(s0.boxes[b].strong >= s0.owned_strong(b));
            }
        }
        assert forall|a: int| s0.anchors().contains(a) implies held.contains(a) by {
            lemma_reach_source(adj, s0.anchors(), a);
            lemma_inflow_subset(adj, g, s0.marked(), a);
        }
        lemma_reach_within(adj, s0.anchors(), held, c);
    }
}

/// No payload that survives a collection owns a strong handle to a box of
/// the garbage.
pub proof fn lemma_garbage_unowned<T: Trace>(s0: HeapState<T>, c: int)
    requires
        s0.sound(),
        s0.garbage().contains(c),
    ensures
        indegree(cleared(s0.strong_adj(), s0.garbage()), c) == 0,
{
    let adj = s0.strong_adj();
    let adj1 = cleared(adj, s0.garbage());
    assert forall|j: int| 0 <= j < adj1.len() && all_nodes(adj1).contains(j) implies occ(adj1[j], c) == 0 by {
        if s0.garbage().contains(j) {
            assert(adj1[j] =~= Seq::<usize>::empty());
        } else if occ(adj1[j], c) > 0 {
            assert(adj1[j] == adj[j]);
            lemma_garbage_sealed(s0, j, c);
        }
    }
    lemma_inflow_zero(adj1, all_nodes(adj1), c);
}

/// A collection leaves a sound heap sound.
pub proof fn lemma_collected_sound<T: Trace>(s0: HeapState<T>)
    requires
        s0.sound(),
    ensures
        s0.collected().sound(),
{
    let s = s0.collected();
    let g = s0.garbage();
    let adj = s0.strong_adj();
    let wadj = s0.weak_adj();
    lemma_root_set_empty();
    lemma_marked_closed(s0);
    assert(s.strong_adj() =~= cleared(adj, g)) by {
        assert forall|j: int| 0 <= j < adj.len() implies s.strong_adj()[j] == cleared(adj, g)[j] by {
            assert(s.strong_refs(j) == cleared(adj, g)[j]);
        }
    }
    assert(s.weak_adj() =~= cleared(wadj, g)) by {
        assert forall|j: int| 0 <= j < wadj.len() implies s.weak_adj()[j] == cleared(wadj, g)[j] by {
            assert(s.weak_refs(j) == cleared(wadj, g)[j]);
        }
    }
    assert(crate::graph::closed_graph(s.strong_adj())) by {
        assert forall|a: int, k: int| 0 <= a < s.strong_adj().len() && 0 <= k < s.strong_adj()[a].len() implies (
        #[trigger] s.strong_adj()[a][k]) < s.strong_adj().len() by {
            assert(s.strong_adj()[a] == adj[a]);
            assert(adj[a][k] < adj.len());
        }
    }
    assert(crate::graph::closed_graph(s.weak_adj())) by {
        assert forall|a: int, k: int| 0 <= a < s.weak_adj().len() && 0 <= k < s.weak_adj()[a].len() implies (
        #[trigger] s.weak_adj()[a][k]) < s.weak_adj().len() by {
            assert(s.weak_adj()[a] == wadj[a]);
            assert(wadj[a][k] < wadj.len());
        }
    }
    assert forall|c: int| s.has(c) implies {
        &&& s.owned_strong(c) <= (#[trigger] s.boxes[c]).strong
        &&& s.owned_weak(c) + s.shared_weak(c) <= s.boxes[c].weak
        &&& s.boxes[c].strong < usize::MAX
        &&& s.boxes[c].weak < usize::MAX
        &&& (s.boxes[c].value.is_some() <==> s.boxes[c].strong > 0)
    } by {
        lemma_cleared_indegree(adj, g, c);
        lemma_cleared_indegree(wadj, g, c);
        assert(s0.owned_strong(c) == indegree(adj, c));
        assert(s0.owned_weak(c) == indegree(wadj, c));
        assert(s0.owned_strong(c) <= s0.boxes[c].strong);
        assert(s0.owned_weak(c) + s0.shared_weak(c) <= s0.boxes[c].weak);
        assert(s0.boxes[c].value.is_some() <==> s0.boxes[c].strong > 0);
        if g.contains(c) {
            lemma_garbage_live(s0, c);
            lemma_garbage_unowned(s0, c);
        } else if s0.boxes[c].strong > 0 {
            lemma_survivor_held(s0, c);
        }
    }
}

/// A collection with an empty buffer changes nothing.
pub proof fn lemma_collect_nothing_buffered<T: Trace>(s: HeapState<T>)
    requires
        s.sound(),
        s.roots.len() == 0,
    ensures
        s.collected() == s,
{
    let adj = s.strong_adj();
    let wadj = s.weak_adj();
    assert(s.roots =~= Seq::empty());
    lemma_root_set_empty();
    assert forall|a: int| !s.candidates().contains(a) by {
        if s.has(a) {
            assert(s.boxes[a].buffered <==> root_set(s.roots).contains(a));
        }
    }
    assert forall|x: int| !s.garbage().contains(x) by {
        lemma_reach_none(adj, s.candidates(), x);
    }
    assert forall|i: int| 0 <= i < s.boxes.len() implies s.collected().boxes[i] == s.boxes[i] by {
        lemma_inflow_zero(adj, s.garbage(), i);
        lemma_inflow_zero(wadj, s.garbage(), i);
        assert(s.boxes[i].buffered <==> root_set(s.roots).contains(i));
        assert(s.boxes[i].color == Color::Black || s.boxes[i].color == Color::Purple);
    }
    assert(s.collected().boxes =~= s.boxes);
}

/// A second collection right after a collection changes nothing.
pub proof fn lemma_collect_twice<T: Trace>(s: HeapState<T>)
    requires
        s.sound(),
    ensures
        s.collected().collected() == s.collected(),
{
    lemma_collected_sound(s);
    lemma_collect_nothing_buffered(s.collected());
}

/// A collection neither takes a handle from a user nor gives one: every
/// box has as many strong handles outside of the heap as before. A box that
/// a user holds a strong handle to has a strong handle before and after the
/// collection, and keeps its payload.
pub proof fn lemma_collect_keeps_held<T: Trace>(s: HeapState<T>, i: int)
    requires
        s.sound(),
        s.has(i),
    ensures
        s.collected().held_strong(i) == s.held_strong(i),
        s.held_strong(i) >= 1 ==> {
            &&& s.boxes[i].strong >= 1
            &&& s.collected().boxes[i].strong >= 1
            &&& s.collected().boxes[i].value == s.boxes[i].value
            &&& s.collected().live(i)
        },
{
    let t = s.collected();
    let g = s.garbage();
    let adj = s.strong_adj();
    lemma_collected_sound(s);
    lemma_marked_closed(s);
    assert(t.strong_adj() =~= cleared(adj, g)) by {
        assert forall|j: int| 0 <= j < adj.len() implies t.strong_adj()[j] == cleared(adj, g)[j] by {
            assert(t.strong_refs(j) == cleared(adj, g)[j]);
        }
    }
    lemma_cleared_indegree(adj, g, i);
    assert(s.owned_strong(i) == indegree(adj, i));
    assert(s.owned_strong(i) <= s.boxes[i].strong);
    assert(s.boxes[i].value.is_some() <==> s.boxes[i].strong > 0);
    if g.contains(i) {
        lemma_garbage_unowned(s, i);
        crate::sweep::lemma_garbage_count(s, i);
        lemma_inflow_subset(adj, g, all_nodes(adj), i);
    }
}

/// The boxes whose flag is set.
pub open spec fn buffered_set<T: Trace>(s: HeapState<T>) -> Set<int> {
    Set::new(|i: int| s.has(i) && s.boxes[i].buffered)
}

/// A buffer without repetitions has as many places as it holds boxes.
pub proof fn lemma_distinct_len(roots: Seq<usize>)
    requires
        crate::state::distinct(roots),
    ensures
        root_set(roots).finite(),
        root_set(roots).len() == roots.len(),
    decreases roots.len(),
{
    if roots.len() == 0 {
        assert(roots =~= Seq::empty());
        lemma_root_set_empty();
    } else {
        let rest = roots.drop_last();
        assert forall|k: int, l: int| 0 <= k < l < rest.len() implies (#[trigger] rest[k]) != (#[trigger] rest[l]) by {
            assert(roots[k] != roots[l]);
        }
        lemma_distinct_len(rest);
        assert(roots =~= rest.push(roots.last()));
        crate::state::lemma_root_set_push(rest, roots.last());
        assert(!root_set(rest).contains(roots.last() as int)) by {
            if root_set(rest).contains(roots.last() as int) {
                let k = choose|k: int| 0 <= k < rest.len() && rest[k] as int == roots.last() as int;
                assert(roots[k] != roots[roots.len() - 1]);
            }
        }
    }
}

/// The buffer holds as many boxes as have their flag set.
pub proof fn lemma_buffer_count<T: Trace>(s: HeapState<T>)
    requires
        s.sound(),
    ensures
        buffered_set(s).finite(),
        s.roots.len() == buffered_set(s).len(),
{
    lemma_distinct_len(s.roots);
    assert(buffered_set(s) =~= root_set(s.roots)) by {
        assert forall|i: int| buffered_set(s).contains(i) <==> root_set(s.roots).contains(i) by {
            if s.has(i) {
                assert(s.boxes[i].buffered <==> root_set(s.roots).contains(i));
            }
            if root_set(s.roots).contains(i) {
                let k = choose|k: int| 0 <= k < s.roots.len() && s.roots[k] as int == i;
                assert(s.roots[k] < s.boxes.len());
            }
        }
    }
}

impl<T: Trace> HeapState<T> {
    /// The heap after `n` strong handles to box `i` have been made from
    /// existing ones.
    pub open spec fn cloned_times(self, i: int, n: nat) -> HeapState<T>
        decreases n,
    {
        if n == 0 {
            self
        } else {
            self.strong_cloned(i).cloned_times(i, (n - 1) as nat)
        }
    }

    /// The heap after `n` strong handles to box `i` have been given up, one
    /// after the other.
    pub open spec fn dropped_times(self, i: usize, n: nat) -> HeapState<T>
        decreases n,
    {
        if n == 0 {
            self
        } else {
            self.dropped(i).dropped_times(i, (n - 1) as nat)
        }
    }
}

/// Making `n` strong handles raises the count by `n` and changes nothing
/// else but the color.
pub proof fn lemma_cloned_times<T: Trace>(s: HeapState<T>, i: int, n: nat)
    requires
        s.sound(),
        s.has(i),
        s.boxes[i].strong >= 1,
        s.boxes[i].strong + n < usize::MAX,
    ensures
        s.cloned_times(i, n).sound(),
        s.cloned_times(i, n).boxes.len() == s.boxes.len(),
        s.cloned_times(i, n).boxes[i].strong == s.boxes[i].strong + n,
        s.cloned_times(i, n).boxes[i].weak == s.boxes[i].weak,
        s.cloned_times(i, n).boxes[i].value == s.boxes[i].value,
        s.cloned_times(i, n).held_strong(i) == s.held_strong(i) + n,
    decreases n,
{
    if n > 0 {
        crate::cc::lemma_raise_sound(s, i, s.strong_cloned(i).boxes[i]);
        lemma_cloned_times(s.strong_cloned(i), i, (n - 1) as nat);
    }
}

/// Giving up one of several strong handles lowers the count by one and
/// makes the box a possible root; nothing else changes.
pub proof fn lemma_dropped_one_of_many<T: Trace>(s: HeapState<T>, i: usize)
    requires
        s.sound(),
        s.has(i as int),
        s.boxes[i as int].strong > 1,
        s.held_strong(i as int) >= 1,
    ensures
        s.dropped(i) == s.decremented(i),
        s.dropped(i).sound(),
        s.dropped(i).held_strong(i as int) == s.held_strong(i as int) - 1,
        s.dropped(i).boxes.len() == s.boxes.len(),
        s.dropped(i).boxes[i as int].strong == s.boxes[i as int].strong - 1,
        s.dropped(i).boxes[i as int].weak == s.boxes[i as int].weak,
        s.dropped(i).boxes[i as int].value == s.boxes[i as int].value,
        s.dropped(i).boxes[i as int].color == Color::Purple,
        s.dropped(i).boxes[i as int].buffered,
{
    let pend = seq![i];
    assert(pend.last() == i);
    assert(pend.drop_last() =~= Seq::<usize>::empty());
    crate::release::lemma_release_start(s, i);
    crate::release::lemma_release_decrement(s, pend);
    crate::release::lemma_release_inv_sound(s.decremented(i));
    crate::release::lemma_same_graphs(s, s.decremented(i));
    assert(s.decremented(i).released(Seq::empty()) == s.decremented(i));
    assert(s.released(pend) == s.decremented(i).released(pend.drop_last()));
}

/// Giving up `n` strong handles to a box that has more than `n` lowers
/// the count by `n`; the payload stays.
pub proof fn lemma_dropped_times<T: Trace>(s: HeapState<T>, i: usize, n: nat)
    requires
        s.sound(),
        s.has(i as int),
        s.boxes[i as int].strong > n,
        s.held_strong(i as int) >= n,
    ensures
        s.dropped_times(i, n).sound(),
        s.dropped_times(i, n).boxes.len() == s.boxes.len(),
        s.dropped_times(i, n).boxes[i as int].strong == s.boxes[i as int].strong - n,
        s.dropped_times(i, n).boxes[i as int].weak == s.boxes[i as int].weak,
        s.dropped_times(i, n).boxes[i as int].value == s.boxes[i as int].value,
    decreases n,
{
    if n > 0 {
        lemma_dropped_one_of_many(s, i);
        lemma_dropped_times(s.dropped(i), i, (n - 1) as nat);
    }
}

/// After as many strong handles to a box have been given up as were made
/// before, the box has as many strong handles as at first, its payload lives
/// and its storage is not released.
pub proof fn lemma_clones_then_drops<T: Trace>(s: HeapState<T>, i: usize, n: nat)
    requires
        s.sound(),
        s.has(i as int),
        s.boxes[i as int].strong >= 1,
        s.boxes[i as int].strong + n < usize::MAX,
    ensures
        ({
            let t = s.cloned_times(i as int, n).dropped_times(i, n);
            &&& t.sound()
            &&& t.boxes[i as int].strong == s.boxes[i as int].strong
            &&& t.boxes[i as int].value == s.boxes[i as int].value
            &&& t.live(i as int)
            &&& t.allocated(i as int)
        }),
{
    lemma_cloned_times(s, i as int, n);
    let r = s.cloned_times(i as int, n);
    assert(s.owned_strong(i as int) <= s.boxes[i as int].strong);
    lemma_dropped_times(r, i, n);
    let t = r.dropped_times(i, n);
    assert(t.boxes[i as int].value.is_some() <==> t.boxes[i as int].strong > 0);
    assert(t.owned_weak(i as int) + t.shared_weak(i as int) <= t.boxes[i as int].weak);
}

/// The handles of the payloads lead from boxes of a higher rank to boxes of
/// a lower one, so they form no cycle.
pub open spec fn ranked(adj: Seq<Seq<usize>>, rank: spec_fn(int) -> nat) -> bool {
    &&& forall|a: int, b: int| has_edge(adj, a, b) ==> rank(b) < rank(a)
    &&& forall|a: int| 0 <= a < adj.len() ==> #[trigger] rank(a) < adj.len()
}

/// In a heap without cycles, a box without a strong handle outside of the
/// heap is live only if another live box is: when no user holds a strong
/// handle, no payload lives, and no collection is needed to get there.
pub proof fn lemma_acyclic_unheld_dead<T: Trace>(s: HeapState<T>, rank: spec_fn(int) -> nat, i: int)
    requires
        s.sound(),
        ranked(s.strong_adj(), rank),
        s.unheld(),
    ensures
        !s.live(i),
    decreases s.boxes.len() - rank(i),
{
    let adj = s.strong_adj();
    if s.live(i) {
        assert(s.boxes[i].value.is_some() <==> s.boxes[i].strong > 0);
        assert(s.held_strong(i) == 0);
        assert(s.owned_strong(i) == indegree(adj, i));
        let j = lemma_inflow_positive(adj, all_nodes(adj), i);
        assert(has_edge(adj, j, i));
        assert(rank(i) < rank(j));
        assert(rank(j) < adj.len());
        assert(s.live(j)) by {
            if s.boxes[j].value.is_none() {
                assert(adj[j] =~= Seq::<usize>::empty());
            }
        }
        lemma_acyclic_unheld_dead(s, rank, j);
    }
}

/// When no user holds a strong handle, a collection destroys every payload:
/// in a well-formed heap every live box can then be reached from a
/// candidate.
pub proof fn lemma_collect_unheld_dead<T: Trace>(s: HeapState<T>, i: int)
    requires
        s.wf(),
        s.unheld(),
    ensures
        !s.collected().live(i),
{
    let adj = s.strong_adj();
    let m = s.marked();
    lemma_marked_closed(s);
    if s.has(i) && s.boxes[i].value.is_some() {
        assert forall|x: int| s.live(x) implies m.contains(x) by {
            assert(reachable(adj, s.bases(), x));
            assert forall|b: int| s.bases().contains(b) implies s.candidates().contains(b) by {
                assert(s.held_strong(b) == 0);
            }
            lemma_reach_more_sources(adj, s.bases(), s.candidates(), x);
        }
        assert forall|a: int| !s.anchors().contains(a) by {
            if s.anchors().contains(a) {
                let rest = Set::new(|j: int| 0 <= j < adj.len() && !m.contains(j));
                lemma_inflow_split(adj, m, rest, a);
                assert forall|j: int| 0 <= j < adj.len() implies m.union(rest).contains(j) == all_nodes(
                    adj,
                ).contains(j) by {}
                lemma_inflow_same(adj, m.union(rest), adj, all_nodes(adj), a);
                assert forall|j: int| 0 <= j < adj.len() && rest.contains(j) implies occ(adj[j], a) == 0 by {
                    if s.boxes[j].value.is_some() {
                        assert(s.live(j));
                    } else {
                        assert(adj[j] =~= Seq::<usize>::empty());
                    }
                }
                lemma_inflow_zero(adj, rest, a);
                assert(s.held_strong(a) == 0);
                assert(s.owned_strong(a) == indegree(adj, a));
            }
        }
        assert(s.live(i));
        assert(m.contains(i));
        lemma_reach_none(adj, s.anchors(), i);
        assert(s.garbage().contains(i));
    }
}

/// What a collection destroys is what no user can reach: the garbage of a
/// well-formed heap is made of the live boxes that cannot be reached from a
/// box that a user holds a strong handle to.
pub proof fn lemma_garbage_out_of_reach<T: Trace>(s: HeapState<T>, x: int)
    requires
        s.wf(),
    ensures
        s.garbage().contains(x) <==> s.live(x) && !s.in_reach(x),
{
    let adj = s.strong_adj();
    let g = s.garbage();
    let m = s.marked();
    let held = s.held_set();
    lemma_marked_closed(s);
    // No user holds a box of the garbage, and no handle leads into it.
    let kept = Set::new(|y: int| !g.contains(y));
    assert(edge_closed(adj, kept)) by {
        assert forall|a: int, b: int| kept.contains(a) && has_edge(adj, a, b) implies kept.contains(b) by {
            if g.contains(b) {
                lemma_garbage_sealed(s, a, b);
            }
        }
    }
    assert forall|h: int| held.contains(h) implies kept.contains(h) by {
        lemma_collect_keeps_held(s, h);
    }
    if g.contains(x) {
        lemma_garbage_live(s, x);
        if s.in_reach(x) {
            lemma_reach_within(adj, held, kept, x);
        }
    }
    // Every anchor is in reach, and so is what the anchors keep alive.
    let near = Set::new(|y: int| s.in_reach(y));
    assert(edge_closed(adj, near)) by {
        assert forall|a: int, b: int| near.contains(a) && has_edge(adj, a, b) implies near.contains(b) by {
            lemma_reach_step(adj, held, a, b);
        }
    }
    assert forall|a: int| s.anchors().contains(a) implies near.contains(a) by {
        if s.held_strong(a) > 0 {
            lemma_reach_source(adj, held, a);
        } else {
            let rest = Set::new(|j: int| 0 <= j < adj.len() && !m.contains(j));
            lemma_inflow_split(adj, m, rest, a);
            assert forall|j: int| 0 <= j < adj.len() implies m.union(rest).contains(j) == all_nodes(adj).contains(
                j,
            ) by {}
            lemma_inflow_same(adj, m.union(rest), adj, all_nodes(adj), a);
            assert(s.owned_strong(a) == indegree(adj, a));
            let z = lemma_inflow_positive(adj, rest, a);
            assert(has_edge(adj, z, a));
            assert(s.live(z)) by {
                if s.boxes[z].value.is_none() {
                    assert(adj[z] =~= Seq::<usize>::empty());
                }
            }
            assert(reachable(adj, s.bases(), z));
            assert forall|b: int| s.bases().contains(b) implies held.union(s.candidates()).contains(b) by {}
            lemma_reach_more_sources(adj, s.bases(), held.union(s.candidates()), z);
            lemma_reach_either(adj, held, s.candidates(), z);
            lemma_reach_step(adj, held, z, a);
        }
    }
    if s.live(x) && !s.in_reach(x) {
        let seen = Set::new(|y: int| s.in_reach(y) || g.contains(y));
        assert(edge_closed(adj, seen)) by {
            assert forall|a: int, b: int| seen.contains(a) && has_edge(adj, a, b) implies seen.contains(b) by {
                if s.in_reach(a) {
                    lemma_reach_step(adj, held, a, b);
                } else {
                    assert(m.contains(b));
                    if s.rescued().contains(b) {
                        lemma_reach_within(adj, s.anchors(), near, b);
                    }
                }
            }
        }
        assert forall|b: int| s.bases().contains(b) implies seen.contains(b) by {
            if s.held_strong(b) > 0 {
                lemma_reach_source(adj, held, b);
            } else {
                lemma_reach_source(adj, s.candidates(), b);
                if s.rescued().contains(b) {
                    lemma_reach_within(adj, s.anchors(), near, b);
                }
            }
        }
        assert(reachable(adj, s.bases(), x));
        lemma_reach_within(adj, s.bases(), seen, x);
    }
}

/// A collection destroys the payloads that no user can reach, and no
/// others.
pub proof fn lemma_collect_exact<T: Trace>(s: HeapState<T>, x: int)
    requires
        s.wf(),
        s.has(x),
    ensures
        s.collected().live(x) <==> s.live(x) && s.in_reach(x),
        s.collected().live(x) ==> s.collected().boxes[x].value == s.boxes[x].value,
{
    lemma_garbage_out_of_reach(s, x);
}

} // verus!
