//! Giving up handles, on the model.
//!
//! Giving up the last strong handle to a box destroys its payload, and with
//! the payload the handles that it owns go. So one strong handle given up
//! can destroy a whole tree of boxes.
use crate::graph::{
    cleared, closed_graph, indegree, lemma_cleared_indegree, lemma_inflow_single, lemma_occ_add, lemma_occ_at,
    occ,
};
use crate::state::{lemma_distinct_push, lemma_root_set_push, root_set, BoxState, HeapState};
use crate::trace::Trace;
use crate::Color;
use vstd::prelude::*;
use vstd::set_lib::{lemma_int_range, lemma_len_subset, set_int_range};

verus! {

impl<T: Trace> HeapState<T> {
    /// The boxes whose payloads live.
    pub open spec fn live_set(self) -> Set<int> {
        Set::new(|i: int| self.live(i))
    }

    /// The heap after box `i`, which has lost a strong handle and kept
    /// another, has been noted as the possible root of a cycle: the box is
    /// purple and in the buffer.
    pub open spec fn suspected(self, i: usize) -> HeapState<T> {
        let b = self.boxes[i as int];
        if b.color == Color::Purple {
            self
        } else if b.buffered {
            self.with_box(i as int, BoxState { color: Color::Purple, ..b })
        } else {
            self.with_box(i as int, BoxState { color: Color::Purple, buffered: true, ..b }).with_roots(
                self.roots.push(i),
            )
        }
    }

    /// The heap after a weak handle to box `w` has been given up. The
    /// storage of a box whose weak count reaches zero is released.
    pub open spec fn weak_dropped(self, w: int) -> HeapState<T> {
        if self.has(w) && self.boxes[w].weak > 0 {
            self.with_box(w, BoxState { weak: (self.boxes[w].weak - 1) as nat, ..self.boxes[w] })
        } else {
            self
        }
    }

    /// The heap after the weak handles to the boxes in `ws` have been given
    /// up, the last one first.
    pub open spec fn weaks_dropped(self, ws: Seq<usize>) -> HeapState<T>
        decreases ws.len(),
    {
        if ws.len() == 0 {
            self
        } else {
            self.weak_dropped(ws.last() as int).weaks_dropped(ws.drop_last())
        }
    }

    /// The heap after the last strong handle to box `i` has gone, before the
    /// strong handles that its payload owned are given up: the payload is
    /// destroyed and the box is black. A box in the buffer keeps its storage
    /// until it leaves the buffer; any other box gives up the weak handle
    /// that its strong handles shared.
    pub open spec fn emptied(self, i: int) -> HeapState<T> {
        let b = self.boxes[i];
        self.with_box(
            i,
            BoxState {
                strong: 0,
                weak: if b.buffered {
                    b.weak
                } else {
                    (b.weak - 1) as nat
                },
                color: Color::Black,
                buffered: b.buffered,
                value: None,
            },
        )
    }

    /// The heap after the payload of box `i` has been destroyed: the box is
    /// emptied and the weak handles that the payload owned are given up.
    pub open spec fn destroyed(self, i: int) -> HeapState<T> {
        self.emptied(i).weaks_dropped(self.weak_refs(i))
    }

    /// The heap after one strong handle to box `i`, which has others, has
    /// been given up.
    pub open spec fn decremented(self, i: usize) -> HeapState<T> {
        self.with_box(
            i as int,
            BoxState { strong: (self.boxes[i as int].strong - 1) as nat, ..self.boxes[i as int] },
        ).suspected(i)
    }

    /// The heap after the strong handles to the boxes in `pend` have been
    /// given up, the last one first.
    ///
    /// A handle to a box with other strong handles lowers the count and
    /// makes the box a possible root. The last handle to a box destroys the
    /// payload; the strong handles that the payload owned are given up next.
    pub open spec fn released(self, pend: Seq<usize>) -> HeapState<T>
        decreases self.live_set().len(), pend.len(),
    {
        if pend.len() == 0 {
            self
        } else {
            let i = pend.last();
            let rest = pend.drop_last();
            if !self.has(i as int) || self.boxes[i as int].strong == 0 {
                self.released(rest)
            } else if self.boxes[i as int].strong > 1 {
                proof {
                    lemma_live_same(self, self.decremented(i));
                }
                self.decremented(i).released(rest)
            } else if self.boxes[i as int].value.is_none() {
                proof {
                    lemma_live_destroyed(self, i as int);
                }
                self.destroyed(i as int).released(rest)
            } else {
                proof {
                    lemma_live_destroyed(self, i as int);
                }
                self.destroyed(i as int).released(rest + self.strong_refs(i as int))
            }
        }
    }

    /// The heap after a strong handle to box `i` has been given up.
    pub open spec fn dropped(self, i: usize) -> HeapState<T> {
        self.released(seq![i])
    }
}

/// Giving up handles makes no box and takes none away.
pub proof fn lemma_released_len<T: Trace>(s: HeapState<T>, pend: Seq<usize>)
    ensures
        s.released(pend).boxes.len() == s.boxes.len(),
    decreases s.live_set().len(), pend.len(),
{
    if pend.len() > 0 {
        let i = pend.last();
        let rest = pend.drop_last();
        if !s.has(i as int) || s.boxes[i as int].strong == 0 {
            lemma_released_len(s, rest);
        } else if s.boxes[i as int].strong > 1 {
            lemma_live_same(s, s.decremented(i));
            lemma_released_len(s.decremented(i), rest);
        } else {
            lemma_live_destroyed(s, i as int);
            lemma_weaks_dropped_frame(s.emptied(i as int), s.weak_refs(i as int));
            if s.boxes[i as int].value.is_none() {
                lemma_released_len(s.destroyed(i as int), rest);
            } else {
                lemma_released_len(s.destroyed(i as int), rest + s.strong_refs(i as int));
            }
        }
    }
}

/// The weak handles that are put aside can all be given up.
pub proof fn lemma_weaks_dropped_inv<T: Trace>(s: HeapState<T>, pend: Seq<usize>, wpend: Seq<usize>)
    requires
        release_inv(s, pend, wpend),
    ensures
        release_inv(s.weaks_dropped(wpend), pend, Seq::empty()),
    decreases wpend.len(),
{
    if wpend.len() > 0 {
        lemma_release_weak(s, pend, wpend);
        lemma_weaks_dropped_inv(s.weak_dropped(wpend.last() as int), pend, wpend.drop_last());
    } else {
        assert(wpend =~= Seq::<usize>::empty());
    }
}

/// Giving up strong handles that their holders own leaves a sound
/// heap.
pub proof fn lemma_released_sound<T: Trace>(s: HeapState<T>, pend: Seq<usize>)
    requires
        release_inv(s, pend, Seq::empty()),
    ensures
        s.released(pend).sound(),
    decreases s.live_set().len(), pend.len(),
{
    if pend.len() == 0 {
        assert(pend =~= Seq::<usize>::empty());
        lemma_release_inv_sound(s);
    } else {
        let i = pend.last();
        let rest = pend.drop_last();
        lemma_release_held(s, pend, Seq::empty());
        if s.boxes[i as int].strong > 1 {
            lemma_release_decrement(s, pend);
            lemma_live_same(s, s.decremented(i));
            lemma_released_sound(s.decremented(i), rest);
        } else {
            lemma_release_empty(s, pend);
            lemma_weaks_dropped_inv(s.emptied(i as int), rest + s.strong_refs(i as int), s.weak_refs(i as int));
            lemma_live_destroyed(s, i as int);
            lemma_released_sound(s.destroyed(i as int), rest + s.strong_refs(i as int));
        }
    }
}

/// Giving up a strong handle that its holder owns leaves a sound heap.
pub proof fn lemma_dropped_sound<T: Trace>(s: HeapState<T>, i: usize)
    requires
        s.sound(),
        s.has(i as int),
        s.held_strong(i as int) >= 1,
    ensures
        s.dropped(i).sound(),
        s.dropped(i).boxes.len() == s.boxes.len(),
{
    lemma_release_start(s, i);
    lemma_released_sound(s, seq![i]);
    lemma_released_len(s, seq![i]);
}

/// Only finitely many payloads live.
pub proof fn lemma_live_finite<T: Trace>(s: HeapState<T>)
    ensures
        s.live_set().finite(),
        s.live_set().len() <= s.boxes.len(),
{
    let r = set_int_range(0, s.boxes.len() as int);
    lemma_int_range(0, s.boxes.len() as int);
    assert(s.live_set().subset_of(r));
    lemma_len_subset(s.live_set(), r);
}

/// Two heaps with the same payloads have the same live boxes.
pub proof fn lemma_live_same<T: Trace>(s: HeapState<T>, t: HeapState<T>)
    requires
        s.boxes.len() == t.boxes.len(),
        forall|i: int| s.has(i) ==> (#[trigger] t.boxes[i]).value.is_some() == s.boxes[i].value.is_some(),
    ensures
        t.live_set() == s.live_set(),
{
    assert(t.live_set() =~= s.live_set());
}

/// Giving up weak handles changes weak counts only.
pub proof fn lemma_weaks_dropped_frame<T: Trace>(s: HeapState<T>, ws: Seq<usize>)
    ensures
        s.weaks_dropped(ws).boxes.len() == s.boxes.len(),
        s.weaks_dropped(ws).roots == s.roots,
        forall|i: int|
            s.has(i) ==> {
                &&& (#[trigger] s.weaks_dropped(ws).boxes[i]).value == s.boxes[i].value
                &&& s.weaks_dropped(ws).boxes[i].strong == s.boxes[i].strong
                &&& s.weaks_dropped(ws).boxes[i].color == s.boxes[i].color
                &&& s.weaks_dropped(ws).boxes[i].buffered == s.boxes[i].buffered
                &&& s.weaks_dropped(ws).boxes[i].weak <= s.boxes[i].weak
            },
    decreases ws.len(),
{
    if ws.len() > 0 {
        let t = s.weak_dropped(ws.last() as int);
        lemma_weaks_dropped_frame(t, ws.drop_last());
        assert forall|i: int| s.has(i) implies {
            &&& (#[trigger] s.weaks_dropped(ws).boxes[i]).value == s.boxes[i].value
            &&& s.weaks_dropped(ws).boxes[i].strong == s.boxes[i].strong
            &&& s.weaks_dropped(ws).boxes[i].color == s.boxes[i].color
            &&& s.weaks_dropped(ws).boxes[i].buffered == s.boxes[i].buffered
            &&& s.weaks_dropped(ws).boxes[i].weak <= s.boxes[i].weak
        } by {
            assert(t.boxes[i].value == s.boxes[i].value);
        }
    }
}

/// Destroying a payload leaves one live box less, or none less if the
/// payload was gone already.
pub proof fn lemma_live_destroyed<T: Trace>(s: HeapState<T>, i: int)
    requires
        s.has(i),
    ensures
        s.boxes[i].value.is_some() ==> s.destroyed(i).live_set().len() < s.live_set().len(),
        s.boxes[i].value.is_none() ==> s.destroyed(i).live_set() == s.live_set(),
{
    let e = s.emptied(i);
    let t = s.destroyed(i);
    lemma_weaks_dropped_frame(e, s.weak_refs(i));
    lemma_live_finite(s);
    if s.boxes[i].value.is_some() {
        assert(t.live_set() =~= s.live_set().remove(i)) by {
            assert forall|j: int| t.live_set().contains(j) <==> s.live_set().remove(i).contains(j) by {
                if s.has(j) {
                    assert(t.boxes[j].value == e.boxes[j].value);
                }
            }
        }
    } else {
        assert(t.live_set() =~= s.live_set()) by {
            assert forall|j: int| t.live_set().contains(j) <==> s.live_set().contains(j) by {
                if s.has(j) {
                    assert(t.boxes[j].value == e.boxes[j].value);
                }
            }
        }
    }
}

/// What holds while strong handles are given up.
///
/// `pend` holds the strong handles and `wpend` the weak handles that are
/// still to be given up. The counts cover them beside the handles that
/// payloads own.
pub open spec fn release_inv<T: Trace>(s: HeapState<T>, pend: Seq<usize>, wpend: Seq<usize>) -> bool {
    &&& s.boxes.len() <= usize::MAX
    &&& s.roots_sound()
    &&& closed_graph(s.strong_adj())
    &&& closed_graph(s.weak_adj())
    &&& s.boxes_sound()
    &&& forall|c: int|
        s.has(c) ==> {
            &&& s.owned_strong(c) + occ(pend, c) <= (#[trigger] s.boxes[c]).strong
            &&& s.owned_weak(c) + s.shared_weak(c) + occ(wpend, c) <= s.boxes[c].weak
            &&& s.boxes[c].strong < usize::MAX
            &&& s.boxes[c].weak < usize::MAX
        }
    &&& forall|k: int| 0 <= k < pend.len() ==> (#[trigger] pend[k]) < s.boxes.len()
    &&& forall|k: int| 0 <= k < wpend.len() ==> (#[trigger] wpend[k]) < s.boxes.len()
}

/// A sound heap is one in which no handle is to be given up.
pub proof fn lemma_release_inv_sound<T: Trace>(s: HeapState<T>)
    ensures
        s.sound() <==> release_inv(s, Seq::empty(), Seq::empty()),
{
    assert forall|c: int| occ(Seq::<usize>::empty(), c) == 0 by {}
    if s.sound() {
        assert(release_inv(s, Seq::empty(), Seq::empty()));
    }
    if release_inv(s, Seq::empty(), Seq::empty()) {
        assert(s.counts_sound());
    }
}

/// A strong handle that its holder owns can be given up.
pub proof fn lemma_release_start<T: Trace>(s: HeapState<T>, i: usize)
    requires
        s.sound(),
        s.has(i as int),
        s.held_strong(i as int) >= 1,
    ensures
        release_inv(s, seq![i], Seq::empty()),
{
    let pend = seq![i];
    assert(pend.drop_last() =~= Seq::<usize>::empty());
    assert forall|c: int| occ(pend, c) == if c == i as int {
        1nat
    } else {
        0nat
    } by {
        assert(occ(Seq::<usize>::empty(), c) == 0);
    }
    assert forall|c: int| occ(Seq::<usize>::empty(), c) == 0 by {}
}

/// The counts cover the handle that was put aside last.
pub proof fn lemma_release_held<T: Trace>(s: HeapState<T>, pend: Seq<usize>, wpend: Seq<usize>)
    requires
        release_inv(s, pend, wpend),
        pend.len() > 0,
    ensures
        s.has(pend.last() as int),
        s.boxes[pend.last() as int].strong >= 1,
        s.boxes[pend.last() as int].value.is_some(),
{
    assert(pend[pend.len() - 1] < s.boxes.len());
    lemma_occ_at(pend, pend.len() - 1);
}

/// Two heaps with the same payloads have the same graphs.
pub proof fn lemma_same_graphs<T: Trace>(s: HeapState<T>, t: HeapState<T>)
    requires
        s.boxes.len() == t.boxes.len(),
        forall|i: int| s.has(i) ==> (#[trigger] t.boxes[i]).value == s.boxes[i].value,
    ensures
        t.strong_adj() == s.strong_adj(),
        t.weak_adj() == s.weak_adj(),
{
    assert(t.strong_adj() =~= s.strong_adj()) by {
        assert forall|i: int| 0 <= i < s.boxes.len() implies t.strong_adj()[i] == s.strong_adj()[i] by {
            assert(t.boxes[i].value == s.boxes[i].value);
        }
    }
    assert(t.weak_adj() =~= s.weak_adj()) by {
        assert forall|i: int| 0 <= i < s.boxes.len() implies t.weak_adj()[i] == s.weak_adj()[i] by {
            assert(t.boxes[i].value == s.boxes[i].value);
        }
    }
}

/// A strong handle to a box with other strong handles is given up.
pub proof fn lemma_release_decrement<T: Trace>(s: HeapState<T>, pend: Seq<usize>)
    requires
        release_inv(s, pend, Seq::empty()),
        pend.len() > 0,
        s.boxes[pend.last() as int].strong > 1,
    ensures
        release_inv(s.decremented(pend.last()), pend.drop_last(), Seq::empty()),
{
    let i = pend.last();
    let rest = pend.drop_last();
    let b = s.boxes[i as int];
    assert(pend[pend.len() - 1] < s.boxes.len());
    let d = s.with_box(i as int, BoxState { strong: (b.strong - 1) as nat, ..b });
    let t = s.decremented(i);
    assert(t == d.suspected(i));
    lemma_same_graphs(s, t);
    assert forall|k: int| 0 <= k < rest.len() implies (#[trigger] rest[k]) < t.boxes.len() by {
        assert(rest[k] == pend[k]);
    }
    if b.color != Color::Purple && !b.buffered {
        lemma_root_set_push(s.roots, i);
        lemma_distinct_push(s.roots, i);
        assert forall|k: int| 0 <= k < t.roots.len() implies (#[trigger] t.roots[k]) < t.boxes.len() by {
            if k < s.roots.len() {
                assert(t.roots[k] == s.roots[k]);
            }
        }
    }
    assert forall|c: int| t.has(c) implies {
        &&& t.owned_strong(c) + occ(rest, c) <= (#[trigger] t.boxes[c]).strong
        &&& t.owned_weak(c) + t.shared_weak(c) + occ(Seq::<usize>::empty(), c) <= t.boxes[c].weak
        &&& t.boxes[c].strong < usize::MAX
        &&& t.boxes[c].weak < usize::MAX
    } by {
        assert(s.owned_strong(c) + occ(pend, c) <= s.boxes[c].strong);
        assert(s.owned_weak(c) + s.shared_weak(c) + occ(Seq::<usize>::empty(), c) <= s.boxes[c].weak);
    }
    assert(t.boxes_sound()) by {
        assert forall|j: int| t.has(j) implies {
            &&& ((#[trigger] t.boxes[j]).value.is_some() <==> t.boxes[j].strong > 0)
            &&& (t.boxes[j].color == Color::Black || t.boxes[j].color == Color::Purple)
            &&& (t.boxes[j].color == Color::Purple ==> t.boxes[j].buffered && t.boxes[j].strong > 0)
        } by {
            assert(s.boxes[j].value.is_some() <==> s.boxes[j].strong > 0);
        }
    }
    assert(t.roots_sound()) by {
        assert forall|j: int| t.has(j) implies ((#[trigger] t.boxes[j]).buffered <==> root_set(t.roots).contains(
            j,
        )) by {
            assert(s.boxes[j].buffered <==> root_set(s.roots).contains(j));
        }
    }
}

/// A handle to a box without strong handles, which no sound heap has
/// pending, changes nothing.
pub proof fn lemma_release_skip<T: Trace>(s: HeapState<T>, pend: Seq<usize>)
    requires
        release_inv(s, pend, Seq::empty()),
        pend.len() > 0,
    ensures
        release_inv(s, pend.drop_last(), Seq::empty()),
{
    let rest = pend.drop_last();
    assert forall|k: int| 0 <= k < rest.len() implies (#[trigger] rest[k]) < s.boxes.len() by {
        assert(rest[k] == pend[k]);
    }
    assert forall|c: int| s.has(c) implies s.owned_strong(c) + occ(rest, c) <= (#[trigger] s.boxes[c]).strong by {
        assert(s.owned_strong(c) + occ(pend, c) <= s.boxes[c].strong);
    }
}

/// The last strong handle to a box is given up: the box is emptied, and the
/// handles that its payload owned are put aside to be given up.
pub proof fn lemma_release_empty<T: Trace>(s: HeapState<T>, pend: Seq<usize>)
    requires
        release_inv(s, pend, Seq::empty()),
        pend.len() > 0,
        s.boxes[pend.last() as int].strong == 1,
    ensures
        release_inv(
            s.emptied(pend.last() as int),
            pend.drop_last() + s.strong_refs(pend.last() as int),
            s.weak_refs(pend.last() as int),
        ),
{
    let i = pend.last() as int;
    let rest = pend.drop_last();
    let b = s.boxes[i];
    assert(pend[pend.len() - 1] < s.boxes.len());
    let t = s.emptied(i);
    let adj = s.strong_adj();
    let wadj = s.weak_adj();
    let pend2 = rest + s.strong_refs(i);
    let wpend2 = s.weak_refs(i);
    assert(adj[i] == s.strong_refs(i));
    assert(wadj[i] == s.weak_refs(i));
    assert(t.strong_adj() =~= cleared(adj, set![i])) by {
        assert forall|j: int| 0 <= j < adj.len() implies t.strong_adj()[j] == cleared(adj, set![i])[j] by {
            assert(t.strong_refs(j) == cleared(adj, set![i])[j]);
        }
    }
    assert(t.weak_adj() =~= cleared(wadj, set![i])) by {
        assert forall|j: int| 0 <= j < wadj.len() implies t.weak_adj()[j] == cleared(wadj, set![i])[j] by {
            assert(t.weak_refs(j) == cleared(wadj, set![i])[j]);
        }
    }
    assert(closed_graph(t.strong_adj())) by {
        assert forall|a: int, k: int| 0 <= a < t.strong_adj().len() && 0 <= k < t.strong_adj()[a].len() implies (
        #[trigger] t.strong_adj()[a][k]) < t.strong_adj().len() by {
            assert(t.strong_adj()[a] == adj[a]);
            assert(adj[a][k] < adj.len());
        }
    }
    assert(closed_graph(t.weak_adj())) by {
        assert forall|a: int, k: int| 0 <= a < t.weak_adj().len() && 0 <= k < t.weak_adj()[a].len() implies (
        #[trigger] t.weak_adj()[a][k]) < t.weak_adj().len() by {
            assert(t.weak_adj()[a] == wadj[a]);
            assert(wadj[a][k] < wadj.len());
        }
    }
    assert forall|k: int| 0 <= k < pend2.len() implies (#[trigger] pend2[k]) < t.boxes.len() by {
        if k < rest.len() {
            assert(pend2[k] == pend[k]);
        } else {
            assert(pend2[k] == adj[i][k - rest.len()]);
            assert(adj[i][k - rest.len()] < adj.len());
        }
    }
    assert forall|k: int| 0 <= k < wpend2.len() implies (#[trigger] wpend2[k]) < t.boxes.len() by {
        assert(wadj[i][k] < wadj.len());
    }
    assert forall|c: int| t.has(c) implies {
        &&& t.owned_strong(c) + occ(pend2, c) <= (#[trigger] t.boxes[c]).strong
        &&& t.owned_weak(c) + t.shared_weak(c) + occ(wpend2, c) <= t.boxes[c].weak
        &&& t.boxes[c].strong < usize::MAX
        &&& t.boxes[c].weak < usize::MAX
    } by {
        lemma_cleared_indegree(adj, set![i], c);
        lemma_cleared_indegree(wadj, set![i], c);
        lemma_inflow_single(adj, i, c);
        lemma_inflow_single(wadj, i, c);
        lemma_occ_add(rest, adj[i], c);
        assert(s.owned_strong(c) + occ(pend, c) <= s.boxes[c].strong);
        assert(s.owned_weak(c) + s.shared_weak(c) + occ(Seq::<usize>::empty(), c) <= s.boxes[c].weak);
        assert(s.owned_strong(c) == indegree(adj, c));
        assert(s.owned_weak(c) == indegree(wadj, c));
    }
    assert(t.boxes_sound()) by {
        assert forall|j: int| t.has(j) implies {
            &&& ((#[trigger] t.boxes[j]).value.is_some() <==> t.boxes[j].strong > 0)
            &&& (t.boxes[j].color == Color::Black || t.boxes[j].color == Color::Purple)
            &&& (t.boxes[j].color == Color::Purple ==> t.boxes[j].buffered && t.boxes[j].strong > 0)
        } by {
            assert(s.boxes[j].value.is_some() <==> s.boxes[j].strong > 0);
        }
    }
    assert(t.roots_sound()) by {
        assert forall|j: int| t.has(j) implies ((#[trigger] t.boxes[j]).buffered <==> root_set(t.roots).contains(
            j,
        )) by {
            assert(s.boxes[j].buffered <==> root_set(s.roots).contains(j));
        }
    }
}

/// The weak handle that was put aside last is given up.
pub proof fn lemma_release_weak<T: Trace>(s: HeapState<T>, pend: Seq<usize>, wpend: Seq<usize>)
    requires
        release_inv(s, pend, wpend),
        wpend.len() > 0,
    ensures
        s.has(wpend.last() as int),
        s.boxes[wpend.last() as int].weak >= 1,
        release_inv(s.weak_dropped(wpend.last() as int), pend, wpend.drop_last()),
{
    let w = wpend.last() as int;
    let rest = wpend.drop_last();
    assert(wpend[wpend.len() - 1] < s.boxes.len());
    lemma_occ_at(wpend, wpend.len() - 1);
    assert(s.owned_weak(w) + s.shared_weak(w) + occ(wpend, w) <= s.boxes[w].weak);
    let t = s.weak_dropped(w);
    lemma_same_graphs(s, t);
    assert forall|k: int| 0 <= k < rest.len() implies (#[trigger] rest[k]) < t.boxes.len() by {
        assert(rest[k] == wpend[k]);
    }
    assert forall|c: int| t.has(c) implies {
        &&& t.owned_strong(c) + occ(pend, c) <= (#[trigger] t.boxes[c]).strong
        &&& t.owned_weak(c) + t.shared_weak(c) + occ(rest, c) <= t.boxes[c].weak
        &&& t.boxes[c].strong < usize::MAX
        &&& t.boxes[c].weak < usize::MAX
    } by {
        assert(s.owned_strong(c) + occ(pend, c) <= s.boxes[c].strong);
        assert(s.owned_weak(c) + s.shared_weak(c) + occ(wpend, c) <= s.boxes[c].weak);
    }
    assert(t.boxes_sound()) by {
        assert forall|j: int| t.has(j) implies {
            &&& ((#[trigger] t.boxes[j]).value.is_some() <==> t.boxes[j].strong > 0)
            &&& (t.boxes[j].color == Color::Black || t.boxes[j].color == Color::Purple)
            &&& (t.boxes[j].color == Color::Purple ==> t.boxes[j].buffered && t.boxes[j].strong > 0)
        } by {
            assert(s.boxes[j].value.is_some() <==> s.boxes[j].strong > 0);
        }
    }
    assert(t.roots_sound()) by {
        assert forall|j: int| t.has(j) implies ((#[trigger] t.boxes[j]).buffered <==> root_set(t.roots).contains(
            j,
        )) by {
            assert(s.boxes[j].buffered <==> root_set(s.roots).contains(j));
        }
    }
}

} // verus!
