//! The mark phase of a collection, on the model.
//!
//! The mark phase walks from each candidate along the strong handles that
//! payloads own. It colors every box that it reaches gray and takes from the
//! strong count of a box one for every handle that it follows to it.
use crate::graph::{
    all_nodes, edge_closed, has_edge, indegree, inflow, lemma_inflow_at_least, lemma_inflow_insert,
    lemma_inflow_same, lemma_inflow_subset, lemma_inflow_zero, lemma_occ_add, lemma_occ_at,
    lemma_occ_positive, lemma_reach_more_sources, lemma_reach_source, lemma_reach_step, lemma_reach_within,
    occ, reachable,
};
use crate::state::{distinct, root_set, BoxState, HeapState};
use crate::trace::Trace;
use crate::Color;
use vstd::prelude::*;

verus! {

/// The gray boxes.
pub open spec fn gray_set<T>(s: HeapState<T>) -> Set<int> {
    Set::new(|i: int| 0 <= i < s.boxes.len() && s.boxes[i].color == Color::Gray)
}

/// Box `i` as the mark phase leaves it when it follows a handle to it.
pub open spec fn marked_box<T>(b: BoxState<T>) -> BoxState<T> {
    BoxState { strong: (b.strong - 1) as nat, color: Color::Gray, ..b }
}

/// What holds while the mark phase runs.
///
/// `s0` is the heap before the phase, `s` the heap now, `pend` the handles
/// that are still to be followed, and `kept` the candidates from which a walk
/// has started.
pub open spec fn mark_inv<T: Trace>(s0: HeapState<T>, s: HeapState<T>, pend: Seq<usize>, kept: Set<int>) -> bool {
    let adj = s0.strong_adj();
    &&& s.boxes.len() == s0.boxes.len()
    &&& forall|i: int|
        s0.has(i) ==> {
            &&& (#[trigger] s.boxes[i]).value == s0.boxes[i].value
            &&& (s.boxes[i].color == Color::Gray || s.boxes[i].color == s0.boxes[i].color)
            &&& s.boxes[i].strong + inflow(adj, gray_set(s), i) == s0.boxes[i].strong + occ(pend, i)
            &&& (s.boxes[i].color == Color::Gray ==> reachable(adj, kept, i) && s0.boxes[i].strong > 0)
        }
    &&& forall|g: int, k: int|
        s0.has(g) && s.boxes[g].color == Color::Gray && 0 <= k < adj[g].len() ==> s.boxes[(#[trigger] adj[g][k]) as int].color
            == Color::Gray || occ(pend, adj[g][k] as int) > 0
    &&& forall|k: int|
        0 <= k < pend.len() ==> (#[trigger] pend[k]) < s0.boxes.len() && reachable(adj, kept, pend[k] as int)
            && s0.boxes[pend[k] as int].strong > 0
    &&& forall|r: int| kept.contains(r) ==> s0.candidates().contains(r)
}

/// Before the phase nothing is gray and nothing is pending.
pub proof fn lemma_mark_init<T: Trace>(s0: HeapState<T>)
    requires
        s0.sound(),
    ensures
        mark_inv(s0, s0, Seq::empty(), Set::empty()),
{
    let adj = s0.strong_adj();
    assert(gray_set(s0) =~= Set::empty());
    assert forall|i: int| s0.has(i) implies inflow(adj, gray_set(s0), i) == 0 by {
        lemma_inflow_zero(adj, gray_set(s0), i);
    }
}

/// The phase changes only colors and strong counts of boxes, so the
/// invariant does not depend on the rest.
pub proof fn lemma_mark_frame<T: Trace>(
    s0: HeapState<T>,
    s: HeapState<T>,
    t: HeapState<T>,
    pend: Seq<usize>,
    kept: Set<int>,
)
    requires
        s0.sound(),
        mark_inv(s0, s, pend, kept),
        t.boxes.len() == s.boxes.len(),
        forall|i: int|
            s.has(i) ==> (#[trigger] t.boxes[i]).value == s.boxes[i].value && t.boxes[i].color
                == s.boxes[i].color && t.boxes[i].strong == s.boxes[i].strong,
    ensures
        mark_inv(s0, t, pend, kept),
{
    assert(gray_set(t) =~= gray_set(s));
    let adj = s0.strong_adj();
    assert forall|g: int, k: int|
        s0.has(g) && t.boxes[g].color == Color::Gray && 0 <= k < adj[g].len() implies t.boxes[(#[trigger] adj[g][k]) as int].color
        == Color::Gray || occ(pend, adj[g][k] as int) > 0 by {
        assert(s.boxes[g].color == Color::Gray);
        assert(adj[g][k] < adj.len());
    }
}

/// A strong count never goes below the handles that are still pending.
pub proof fn lemma_mark_count<T: Trace>(s0: HeapState<T>, s: HeapState<T>, pend: Seq<usize>, kept: Set<int>, c: int)
    requires
        s0.sound(),
        mark_inv(s0, s, pend, kept),
        s0.has(c),
    ensures
        s.boxes[c].strong >= occ(pend, c),
        s.boxes[c].strong <= s0.boxes[c].strong + occ(pend, c),
{
    let adj = s0.strong_adj();
    lemma_inflow_subset(adj, gray_set(s), all_nodes(adj), c);
    assert(indegree(adj, c) == s0.owned_strong(c));
    assert(s0.boxes[c].strong >= s0.owned_strong(c));
    assert(s.boxes[c].strong + inflow(adj, gray_set(s), c) == s0.boxes[c].strong + occ(pend, c));
}

/// A box that a payload owns a strong handle to has a strong handle.
pub proof fn lemma_edge_target_held<T: Trace>(s0: HeapState<T>, a: int, b: int)
    requires
        s0.sound(),
        has_edge(s0.strong_adj(), a, b),
    ensures
        s0.has(b),
        s0.boxes[b].strong > 0,
{
    let adj = s0.strong_adj();
    lemma_occ_positive(adj[a], b);
    let k = choose|k: int| 0 <= k < adj[a].len() && adj[a][k] as int == b;
    assert(adj[a][k] < adj.len());
    lemma_inflow_at_least(adj, all_nodes(adj), a, b);
    assert(s0.owned_strong(b) >= 1);
    assert(s0.boxes[b].strong >= s0.owned_strong(b));
}

/// A box that is not gray while nothing is pending has not been touched.
pub proof fn lemma_mark_untouched<T: Trace>(s0: HeapState<T>, s: HeapState<T>, kept: Set<int>, i: int)
    requires
        s0.sound(),
        mark_inv(s0, s, Seq::empty(), kept),
        s0.has(i),
        s.boxes[i].color != Color::Gray,
    ensures
        s.boxes[i].strong == s0.boxes[i].strong,
        s.boxes[i].color == s0.boxes[i].color,
{
    let adj = s0.strong_adj();
    let g = gray_set(s);
    assert forall|j: int| 0 <= j < adj.len() && g.contains(j) implies occ(adj[j], i) == 0 by {
        if occ(adj[j], i) > 0 {
            lemma_occ_positive(adj[j], i);
            let k = choose|k: int| 0 <= k < adj[j].len() && adj[j][k] as int == i;
            assert(s.boxes[adj[j][k] as int].color == Color::Gray || occ(Seq::<usize>::empty(), adj[j][k] as int) > 0);
        }
    }
    lemma_inflow_zero(adj, g, i);
    assert(occ(Seq::<usize>::empty(), i) == 0);
}

/// A walk starts at candidate `r`: the box turns gray and its handles become
/// pending.
pub proof fn lemma_mark_start<T: Trace>(s0: HeapState<T>, s: HeapState<T>, kept: Set<int>, r: int)
    requires
        s0.sound(),
        mark_inv(s0, s, Seq::empty(), kept),
        s0.candidates().contains(r),
        s.boxes[r].color != Color::Gray,
    ensures
        mark_inv(
            s0,
            s.with_box(r, BoxState { color: Color::Gray, ..s.boxes[r] }),
            s0.strong_refs(r),
            kept.insert(r),
        ),
{
    let adj = s0.strong_adj();
    let t = s.with_box(r, BoxState { color: Color::Gray, ..s.boxes[r] });
    let pend = s0.strong_refs(r);
    let kept2 = kept.insert(r);
    assert(adj[r] == pend);
    assert(gray_set(t) =~= gray_set(s).insert(r));
    lemma_reach_source(adj, kept2, r);
    assert forall|i: int| s0.has(i) implies {
        &&& (#[trigger] t.boxes[i]).value == s0.boxes[i].value
        &&& (t.boxes[i].color == Color::Gray || t.boxes[i].color == s0.boxes[i].color)
        &&& t.boxes[i].strong + inflow(adj, gray_set(t), i) == s0.boxes[i].strong + occ(pend, i)
        &&& (t.boxes[i].color == Color::Gray ==> reachable(adj, kept2, i) && s0.boxes[i].strong > 0)
    } by {
        assert(s.boxes[i].value == s0.boxes[i].value);
        lemma_inflow_insert(adj, gray_set(s), r, i);
        assert(occ(Seq::<usize>::empty(), i) == 0);
        if t.boxes[i].color == Color::Gray && i != r {
            lemma_reach_more_sources(adj, kept, kept2, i);
        }
    }
    assert forall|g: int, k: int|
        s0.has(g) && t.boxes[g].color == Color::Gray && 0 <= k < adj[g].len() implies t.boxes[(#[trigger] adj[g][k]) as int].color
        == Color::Gray || occ(pend, adj[g][k] as int) > 0 by {
        assert(adj[g][k] < adj.len());
        if g == r {
            lemma_occ_at(adj[r], k);
        } else {
            assert(s.boxes[g].color == Color::Gray);
            assert(s.boxes[adj[g][k] as int].color == Color::Gray || occ(Seq::<usize>::empty(), adj[g][k] as int) > 0);
        }
    }
    assert forall|k: int| 0 <= k < pend.len() implies (#[trigger] pend[k]) < s0.boxes.len() && reachable(
        adj,
        kept2,
        pend[k] as int,
    ) && s0.boxes[pend[k] as int].strong > 0 by {
        assert(adj[r][k] < adj.len());
        lemma_occ_at(adj[r], k);
        assert(has_edge(adj, r, pend[k] as int));
        lemma_reach_step(adj, kept2, r, pend[k] as int);
        lemma_edge_target_held(s0, r, pend[k] as int);
    }
}

/// The walk follows the handle that was put aside last, to box `c`: the
/// count of `c` goes down by one, and if `c` was not gray it turns gray and
/// its handles become pending.
pub proof fn lemma_mark_follow<T: Trace>(s0: HeapState<T>, s: HeapState<T>, pend: Seq<usize>, kept: Set<int>)
    requires
        s0.sound(),
        mark_inv(s0, s, pend, kept),
        pend.len() > 0,
    ensures
        s.boxes[pend.last() as int].strong >= 1,
        mark_inv(
            s0,
            s.with_box(pend.last() as int, marked_box(s.boxes[pend.last() as int])),
            if s.boxes[pend.last() as int].color == Color::Gray {
                pend.drop_last()
            } else {
                pend.drop_last() + s0.strong_refs(pend.last() as int)
            },
            kept,
        ),
{
    let adj = s0.strong_adj();
    let c = pend.last() as int;
    let rest = pend.drop_last();
    assert(pend[pend.len() - 1] < s0.boxes.len());
    lemma_mark_count(s0, s, pend, kept, c);
    let was_gray = s.boxes[c].color == Color::Gray;
    let t = s.with_box(c, marked_box(s.boxes[c]));
    let pend2 = if was_gray {
        rest
    } else {
        rest + s0.strong_refs(c)
    };
    assert(adj[c] == s0.strong_refs(c));
    assert(reachable(adj, kept, c));
    if was_gray {
        assert(gray_set(t) =~= gray_set(s));
    } else {
        assert(gray_set(t) =~= gray_set(s).insert(c));
    }
    assert forall|i: int| s0.has(i) implies {
        &&& (#[trigger] t.boxes[i]).value == s0.boxes[i].value
        &&& (t.boxes[i].color == Color::Gray || t.boxes[i].color == s0.boxes[i].color)
        &&& t.boxes[i].strong + inflow(adj, gray_set(t), i) == s0.boxes[i].strong + occ(pend2, i)
        &&& (t.boxes[i].color == Color::Gray ==> reachable(adj, kept, i) && s0.boxes[i].strong > 0)
    } by {
        assert(s.boxes[i].value == s0.boxes[i].value);
        assert(s.boxes[i].strong + inflow(adj, gray_set(s), i) == s0.boxes[i].strong + occ(pend, i));
        if !was_gray {
            lemma_inflow_insert(adj, gray_set(s), c, i);
            lemma_occ_add(rest, adj[c], i);
        }
    }
    assert forall|g: int, k: int|
        s0.has(g) && t.boxes[g].color == Color::Gray && 0 <= k < adj[g].len() implies t.boxes[(#[trigger] adj[g][k]) as int].color
        == Color::Gray || occ(pend2, adj[g][k] as int) > 0 by {
        let x = adj[g][k] as int;
        assert(adj[g][k] < adj.len());
        if g == c && !was_gray {
            lemma_occ_at(adj[c], k);
            lemma_occ_add(rest, adj[c], x);
        } else {
            assert(s.boxes[g].color == Color::Gray);
            assert(s.boxes[x].color == Color::Gray || occ(pend, x) > 0);
            if x != c && s.boxes[x].color != Color::Gray {
                assert(occ(rest, x) == occ(pend, x));
                if !was_gray {
                    lemma_occ_add(rest, adj[c], x);
                }
            }
        }
    }
    assert forall|k: int| 0 <= k < pend2.len() implies (#[trigger] pend2[k]) < s0.boxes.len() && reachable(
        adj,
        kept,
        pend2[k] as int,
    ) && s0.boxes[pend2[k] as int].strong > 0 by {
        if k < rest.len() {
            assert(pend2[k] == pend[k]);
        } else {
            let j = k - rest.len();
            assert(pend2[k] == adj[c][j]);
            assert(adj[c][j] < adj.len());
            lemma_occ_at(adj[c], j);
            assert(has_edge(adj, c, pend2[k] as int));
            lemma_reach_step(adj, kept, c, pend2[k] as int);
            lemma_edge_target_held(s0, c, pend2[k] as int);
        }
    }
}

/// What the mark phase and the scan phase leave of the buffer and of the
/// weak counts.
///
/// The buffer holds candidates, none twice, and they reach every marked box;
/// the flag of a box says whether the buffer holds it. A box that waited for
/// the release of its storage has given up its shared weak handle.
pub open spec fn roots_post<T: Trace>(s0: HeapState<T>, s: HeapState<T>) -> bool {
    let adj = s0.strong_adj();
    &&& s.boxes.len() == s0.boxes.len()
    &&& forall|i: int|
        s0.has(i) ==> {
            &&& (#[trigger] s.boxes[i]).value == s0.boxes[i].value
            &&& s.boxes[i].weak == s0.boxes[i].weak - if s0.deferred(i) {
                1int
            } else {
                0int
            }
            &&& (s.boxes[i].buffered <==> root_set(s.roots).contains(i))
        }
    &&& forall|k: int|
        0 <= k < s.roots.len() ==> (#[trigger] s.roots[k]) < s0.boxes.len() && s0.candidates().contains(
            s.roots[k] as int,
        )
    &&& distinct(s.roots)
    &&& forall|i: int| #[trigger] reachable(adj, s0.candidates(), i) ==> reachable(adj, root_set(s.roots), i)
}

/// What the mark phase leaves behind: the marked boxes are gray and the
/// others black, and each strong count has lost the handles that the
/// payloads of marked boxes own.
pub open spec fn marked_post<T: Trace>(s0: HeapState<T>, s1: HeapState<T>) -> bool {
    &&& roots_post(s0, s1)
    &&& forall|i: int|
        s0.has(i) ==> {
            &&& (#[trigger] s1.boxes[i]).color == if s0.marked().contains(i) {
                Color::Gray
            } else {
                Color::Black
            }
            &&& s1.boxes[i].strong == s0.trial_strong(i)
        }
}

/// When every candidate has been looked at and nothing is pending, the gray
/// boxes are the marked ones and the counts are the trial counts.
pub proof fn lemma_mark_done<T: Trace>(s0: HeapState<T>, s: HeapState<T>, kept: Set<int>)
    requires
        s0.sound(),
        mark_inv(s0, s, Seq::empty(), kept),
        forall|r: int| s0.candidates().contains(r) ==> s.boxes[r].color == Color::Gray,
    ensures
        forall|i: int| s0.has(i) ==> (s0.marked().contains(i) <==> (#[trigger] s.boxes[i]).color == Color::Gray),
        forall|i: int| s0.has(i) && !s0.marked().contains(i) ==> (#[trigger] s.boxes[i]).color == Color::Black,
        forall|i: int| s0.has(i) ==> (#[trigger] s.boxes[i]).strong == s0.trial_strong(i),
        forall|i: int| #[trigger]
            reachable(s0.strong_adj(), s0.candidates(), i) ==> s0.has(i) && reachable(s0.strong_adj(), kept, i),
{
    let adj = s0.strong_adj();
    let g = gray_set(s);
    assert(edge_closed(adj, g)) by {
        assert forall|a: int, b: int| g.contains(a) && has_edge(adj, a, b) implies g.contains(b) by {
            lemma_occ_positive(adj[a], b);
            let k = choose|k: int| 0 <= k < adj[a].len() && adj[a][k] as int == b;
            assert(adj[a][k] < adj.len());
            assert(s.boxes[adj[a][k] as int].color == Color::Gray || occ(Seq::<usize>::empty(), adj[a][k] as int) > 0);
        }
    }
    assert forall|i: int| s0.marked().contains(i) implies g.contains(i) by {
        lemma_reach_within(adj, s0.candidates(), g, i);
    }
    assert forall|i: int| s0.has(i) && (#[trigger] s.boxes[i]).color == Color::Gray implies s0.marked().contains(
        i,
    ) by {
        lemma_reach_more_sources(adj, kept, s0.candidates(), i);
    }
    assert forall|i: int| s0.has(i) && !s0.marked().contains(i) implies (#[trigger] s.boxes[i]).color
        == Color::Black by {
        assert(s.boxes[i].color == s0.boxes[i].color);
        assert(s0.boxes[i].color == Color::Black || s0.boxes[i].color == Color::Purple);
        if s0.boxes[i].color == Color::Purple {
            assert(s0.candidates().contains(i));
        }
    }
    assert forall|i: int| s0.has(i) implies (#[trigger] s.boxes[i]).strong == s0.trial_strong(i) by {
        lemma_inflow_same(adj, g, adj, s0.marked(), i);
        assert(occ(Seq::<usize>::empty(), i) == 0);
    }
    assert forall|i: int| s0.marked().contains(i) implies s0.has(i) && reachable(adj, kept, i) by {
        assert(g.contains(i));
    }
    assert forall|i: int| s0.has(i) implies (s0.marked().contains(i) <==> (#[trigger] s.boxes[i]).color
        == Color::Gray) by {
        if s0.marked().contains(i) {
            assert(g.contains(i));
        }
    }
}

} // verus!
