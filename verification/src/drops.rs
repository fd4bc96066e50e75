//! What giving up handles does to the payloads and to the users' handles.
use crate::cover::lemma_covered_released;
use crate::graph::{
    all_nodes, cleared, has_edge, indegree, lemma_cleared_indegree, lemma_inflow_at_least,
    lemma_inflow_single, lemma_occ_add, occ,
};
use crate::laws::{lemma_acyclic_unheld_dead, lemma_collect_unheld_dead, lemma_dropped_one_of_many, ranked};
use crate::release::{
    lemma_live_destroyed, lemma_live_same, lemma_release_decrement, lemma_release_empty, lemma_release_held,
    lemma_released_len, lemma_released_sound, lemma_same_graphs, lemma_weaks_dropped_frame,
    lemma_weaks_dropped_inv, release_inv,
};
use crate::state::HeapState;
use crate::trace::Trace;
use vstd::prelude::*;

verus! {

/// Giving up handles changes no payload: it only destroys payloads.
pub proof fn lemma_released_payloads<T: Trace>(s: HeapState<T>, pend: Seq<usize>, j: int)
    requires
        s.has(j),
    ensures
        s.released(pend).boxes.len() == s.boxes.len(),
        s.released(pend).boxes[j].value.is_none() || s.released(pend).boxes[j].value == s.boxes[j].value,
    decreases s.live_set().len(), pend.len(),
{
    if pend.len() > 0 {
        let i = pend.last();
        let rest = pend.drop_last();
        if !s.has(i as int) || s.boxes[i as int].strong == 0 {
            lemma_released_payloads(s, rest, j);
        } else if s.boxes[i as int].strong > 1 {
            lemma_live_same(s, s.decremented(i));
            lemma_released_payloads(s.decremented(i), rest, j);
        } else {
            lemma_live_destroyed(s, i as int);
            lemma_weaks_dropped_frame(s.emptied(i as int), s.weak_refs(i as int));
            assert(s.destroyed(i as int).boxes[j].value == s.emptied(i as int).boxes[j].value);
            if s.boxes[i as int].value.is_none() {
                lemma_released_payloads(s.destroyed(i as int), rest, j);
            } else {
                lemma_released_payloads(s.destroyed(i as int), rest + s.strong_refs(i as int), j);
            }
        }
    }
}

/// Giving up handles takes from the users the handles that are given up,
/// and no others: what the destroyed payloads owned was not theirs.
pub proof fn lemma_released_held<T: Trace>(s: HeapState<T>, pend: Seq<usize>, c: int)
    requires
        release_inv(s, pend, Seq::empty()),
        s.has(c),
    ensures
        s.released(pend).held_strong(c) == s.held_strong(c) - occ(pend, c),
    decreases s.live_set().len(), pend.len(),
{
    if pend.len() > 0 {
        let i = pend.last();
        let rest = pend.drop_last();
        lemma_release_held(s, pend, Seq::empty());
        if s.boxes[i as int].strong > 1 {
            let t = s.decremented(i);
            lemma_release_decrement(s, pend);
            lemma_live_same(s, t);
            lemma_same_graphs(s, t);
            lemma_released_held(t, rest, c);
        } else {
            let e = s.emptied(i as int);
            let t = s.destroyed(i as int);
            let pend2 = rest + s.strong_refs(i as int);
            let adj = s.strong_adj();
            lemma_release_empty(s, pend);
            lemma_weaks_dropped_inv(e, pend2, s.weak_refs(i as int));
            lemma_weaks_dropped_frame(e, s.weak_refs(i as int));
            lemma_live_destroyed(s, i as int);
            lemma_released_held(t, pend2, c);
            lemma_same_graphs(e, t);
            assert(e.strong_adj() =~= cleared(adj, set![i as int])) by {
                assert forall|j: int| 0 <= j < adj.len() implies e.strong_adj()[j] == cleared(adj, set![i as int])[j] by {
                    assert(e.strong_refs(j) == cleared(adj, set![i as int])[j]);
                }
            }
            lemma_cleared_indegree(adj, set![i as int], c);
            lemma_inflow_single(adj, i as int, c);
            lemma_occ_add(rest, adj[i as int], c);
            assert(adj[i as int] == s.strong_refs(i as int));
            assert(s.owned_strong(c) == indegree(adj, c));
            assert(t.owned_strong(c) == indegree(e.strong_adj(), c));
            assert(t.boxes[c].strong == e.boxes[c].strong);
            if c == i as int {
                assert(s.owned_strong(c) + occ(pend, c) <= s.boxes[c].strong);
                lemma_inflow_at_least(adj, all_nodes(adj), c, c);
            }
        }
    }
}

impl<T: Trace> HeapState<T> {
    /// `handles` are the strong handles that the users of the heap hold.
    pub open spec fn all_held(self, handles: Seq<usize>) -> bool {
        &&& forall|k: int| 0 <= k < handles.len() ==> (#[trigger] handles[k]) < self.boxes.len()
        &&& forall|c: int| self.has(c) ==> #[trigger] occ(handles, c) == self.held_strong(c)
    }

    /// The heap after strong handles to box `i` have been made and given up
    /// as `steps` tells: `true` makes one, `false` gives one up.
    pub open spec fn handled(self, i: usize, steps: Seq<bool>) -> HeapState<T>
        decreases steps.len(),
    {
        if steps.len() == 0 {
            self
        } else if steps[0] {
            self.strong_cloned(i as int).handled(i, steps.skip(1))
        } else {
            self.dropped(i).handled(i, steps.skip(1))
        }
    }
}

/// How many more handles `steps` make than give up.
pub open spec fn surplus(steps: Seq<bool>) -> int
    decreases steps.len(),
{
    if steps.len() == 0 {
        0
    } else {
        surplus(steps.skip(1)) + if steps[0] {
            1int
        } else {
            -1int
        }
    }
}

/// At no point have `steps` given up more handles than they have made and
/// `spare` together.
pub open spec fn never_short(steps: Seq<bool>, spare: int) -> bool {
    forall|k: int| 0 <= k <= steps.len() ==> #[trigger] surplus(steps.take(k)) + spare >= 0
}

/// When the users have given up all their strong handles, they hold none.
pub proof fn lemma_released_unheld<T: Trace>(s: HeapState<T>, handles: Seq<usize>)
    requires
        s.sound(),
        s.all_held(handles),
    ensures
        release_inv(s, handles, Seq::empty()),
        s.released(handles).sound(),
        s.released(handles).unheld(),
{
    assert forall|c: int| occ(Seq::<usize>::empty(), c) == 0 by {}
    assert(release_inv(s, handles, Seq::empty())) by {
        assert forall|c: int| s.has(c) implies s.owned_strong(c) + occ(handles, c) <= (#[trigger] s.boxes[c]).strong by {
            assert(occ(handles, c) == s.held_strong(c));
        }
    }
    lemma_released_sound(s, handles);
    let t = s.released(handles);
    lemma_released_len(s, handles);
    assert forall|i: int| t.has(i) implies #[trigger] t.held_strong(i) == 0 by {
        lemma_released_held(s, handles, i);
        assert(occ(handles, i) == s.held_strong(i));
    }
}

/// In a heap without cycles no payload lives once the users have given up
/// all their strong handles. No collection is needed.
pub proof fn lemma_drop_all_acyclic<T: Trace>(
    s: HeapState<T>,
    rank: spec_fn(int) -> nat,
    handles: Seq<usize>,
    i: int,
)
    requires
        s.sound(),
        ranked(s.strong_adj(), rank),
        s.all_held(handles),
    ensures
        !s.released(handles).live(i),
{
    let t = s.released(handles);
    lemma_released_unheld(s, handles);
    lemma_released_len(s, handles);
    assert(ranked(t.strong_adj(), rank)) by {
        assert forall|a: int, b: int| has_edge(t.strong_adj(), a, b) implies rank(b) < rank(a) by {
            lemma_released_payloads(s, handles, a);
            if t.boxes[a].value.is_none() {
                assert(t.strong_adj()[a] =~= Seq::<usize>::empty());
            } else {
                assert(t.strong_adj()[a] == s.strong_adj()[a]);
                assert(has_edge(s.strong_adj(), a, b));
            }
        }
    }
    lemma_acyclic_unheld_dead(t, rank, i);
}

/// Whatever the handles in the heap look like, no payload lives once the
/// users have given up all their strong handles and a collection has run.
pub proof fn lemma_drop_all_collect<T: Trace>(s: HeapState<T>, handles: Seq<usize>, i: int)
    requires
        s.wf(),
        s.all_held(handles),
    ensures
        !s.released(handles).collected().live(i),
{
    lemma_released_unheld(s, handles);
    lemma_covered_released(s, handles);
    lemma_collect_unheld_dead(s.released(handles), i);
}

/// After any run of making and giving up strong handles to a box that never
/// gives up more than it has made, the box has as many strong handles more
/// as the run has made more than given up, and its payload is as it was. So
/// after as many handles given up as made, the count is as at first.
pub proof fn lemma_handled<T: Trace>(s: HeapState<T>, i: usize, steps: Seq<bool>, spare: nat)
    requires
        s.wf(),
        s.has(i as int),
        s.boxes[i as int].strong >= 1 + spare,
        s.held_strong(i as int) >= spare,
        s.boxes[i as int].strong + steps.len() < usize::MAX,
        never_short(steps, spare as int),
    ensures
        s.handled(i, steps).wf(),
        s.handled(i, steps).boxes.len() == s.boxes.len(),
        s.handled(i, steps).boxes[i as int].strong == s.boxes[i as int].strong + surplus(steps),
        s.handled(i, steps).boxes[i as int].weak == s.boxes[i as int].weak,
        s.handled(i, steps).boxes[i as int].value == s.boxes[i as int].value,
        s.handled(i, steps).live(i as int),
        s.handled(i, steps).allocated(i as int),
    decreases steps.len(),
{
    assert(s.boxes[i as int].value.is_some() <==> s.boxes[i as int].strong > 0);
    assert(s.owned_weak(i as int) + s.shared_weak(i as int) <= s.boxes[i as int].weak);
    if steps.len() > 0 {
        let rest = steps.skip(1);
        assert(steps.take(1).skip(1) =~= Seq::<bool>::empty());
        assert(steps.take(1)[0] == steps[0]);
        assert(surplus(steps.take(1)) + spare >= 0);
        assert(surplus(steps.take(1)) == surplus(Seq::<bool>::empty()) + if steps[0] {
            1int
        } else {
            -1int
        });
        let spare2: nat = if steps[0] {
            spare + 1
        } else {
            (spare - 1) as nat
        };
        assert(never_short(rest, spare2 as int)) by {
            assert forall|k: int| 0 <= k <= rest.len() implies #[trigger] surplus(rest.take(k)) + spare2 >= 0 by {
                assert(steps.take(k + 1).skip(1) =~= rest.take(k));
                assert(steps.take(k + 1)[0] == steps[0]);
                assert(surplus(steps.take(k + 1)) + spare >= 0);
            }
        }
        if steps[0] {
            let t = s.strong_cloned(i as int);
            crate::cc::lemma_raise_sound(s, i as int, t.boxes[i as int]);
            crate::cover::lemma_covered_cloned(s, i as int);
            lemma_handled(t, i, rest, spare2);
        } else {
            let t = s.dropped(i);
            lemma_dropped_one_of_many(s, i);
            crate::cover::lemma_covered_dropped(s, i);
            lemma_handled(t, i, rest, spare2);
        }
    }
}

} // verus!
