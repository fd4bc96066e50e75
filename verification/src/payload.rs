//! Changing a payload in place.
//!
//! A payload that is changed in place may come to own other handles than
//! before. The heap stays sound if the handles that the payload has gained
//! are handles that a user held, and covered if a user still holds the box
//! itself.
use crate::cover::lemma_reach_transfer;
use crate::graph::{
    closed_graph, has_edge, lemma_indegree_update, lemma_occ_at, lemma_occ_positive, lemma_reach_source,
    lemma_reach_step, occ, reachable,
};
use crate::state::{root_set, HeapState};
use crate::trace::Trace;
use crate::Color;
use vstd::prelude::*;

verus! {

impl<T: Trace> HeapState<T> {
    /// Every handle that `value` owns is a handle that a user holds or that
    /// the payload of box `i` owns, so that `value` can take the place of
    /// that payload.
    pub open spec fn can_hold(self, i: int, value: T) -> bool {
        &&& forall|c: int|
            {
                &&& (#[trigger] occ(value.strong_refs(), c) > 0 ==> self.has(c))
                &&& (self.has(c) ==> occ(value.strong_refs(), c) <= self.held_strong(c) + occ(
                    self.strong_refs(i),
                    c,
                ))
            }
        &&& forall|c: int|
            {
                &&& (#[trigger] occ(value.weak_refs(), c) > 0 ==> self.has(c))
                &&& (self.has(c) ==> occ(value.weak_refs(), c) <= self.held_weak(c) + occ(self.weak_refs(i), c))
            }
    }
}

/// A sound heap stays sound when the payload of a live box is
/// replaced by a value whose handles a user held or the old payload owned.
/// The handles that the old payload owned and the new one does not are the
/// users' from then on.
pub proof fn lemma_with_value_sound<T: Trace>(s: HeapState<T>, i: int, value: T)
    requires
        s.sound(),
        s.live(i),
        s.can_hold(i, value),
    ensures
        s.with_value(i, Some(value)).sound(),
        forall|c: int|
            s.has(c) ==> #[trigger] s.with_value(i, Some(value)).held_strong(c) == s.held_strong(c) + occ(
                s.strong_refs(i),
                c,
            ) - occ(value.strong_refs(), c),
        forall|c: int|
            s.has(c) ==> #[trigger] s.with_value(i, Some(value)).held_weak(c) == s.held_weak(c) + occ(
                s.weak_refs(i),
                c,
            ) - occ(value.weak_refs(), c),
{
    let t = s.with_value(i, Some(value));
    let adj = s.strong_adj();
    let wadj = s.weak_adj();
    assert(t.strong_adj() =~= adj.update(i, value.strong_refs())) by {
        assert forall|j: int| 0 <= j < adj.len() implies t.strong_adj()[j] == adj.update(i, value.strong_refs())[j] by {
            assert(t.strong_refs(j) == if j == i {
                value.strong_refs()
            } else {
                s.strong_refs(j)
            });
        }
    }
    assert(t.weak_adj() =~= wadj.update(i, value.weak_refs())) by {
        assert forall|j: int| 0 <= j < wadj.len() implies t.weak_adj()[j] == wadj.update(i, value.weak_refs())[j] by {
            assert(t.weak_refs(j) == if j == i {
                value.weak_refs()
            } else {
                s.weak_refs(j)
            });
        }
    }
    assert(closed_graph(t.strong_adj())) by {
        assert forall|a: int, k: int| 0 <= a < t.strong_adj().len() && 0 <= k < t.strong_adj()[a].len() implies (
        #[trigger] t.strong_adj()[a][k]) < t.strong_adj().len() by {
            if a != i {
                assert(adj[a][k] < adj.len());
            } else {
                lemma_occ_at(value.strong_refs(), k);
            }
        }
    }
    assert(closed_graph(t.weak_adj())) by {
        assert forall|a: int, k: int| 0 <= a < t.weak_adj().len() && 0 <= k < t.weak_adj()[a].len() implies (
        #[trigger] t.weak_adj()[a][k]) < t.weak_adj().len() by {
            if a != i {
                assert(wadj[a][k] < wadj.len());
            } else {
                lemma_occ_at(value.weak_refs(), k);
            }
        }
    }
    assert forall|c: int| t.has(c) implies {
        &&& t.owned_strong(c) <= (#[trigger] t.boxes[c]).strong
        &&& t.owned_weak(c) + t.shared_weak(c) <= t.boxes[c].weak
        &&& t.boxes[c].strong < usize::MAX
        &&& t.boxes[c].weak < usize::MAX
        &&& t.held_strong(c) == s.held_strong(c) + occ(s.strong_refs(i), c) - occ(value.strong_refs(), c)
        &&& t.held_weak(c) == s.held_weak(c) + occ(s.weak_refs(i), c) - occ(value.weak_refs(), c)
    } by {
        lemma_indegree_update(adj, i, value.strong_refs(), c);
        lemma_indegree_update(wadj, i, value.weak_refs(), c);
        assert(adj[i] == s.strong_refs(i));
        assert(wadj[i] == s.weak_refs(i));
        assert(s.owned_strong(c) <= s.boxes[c].strong);
        assert(s.owned_weak(c) + s.shared_weak(c) <= s.boxes[c].weak);
        assert(occ(value.strong_refs(), c) <= s.held_strong(c) + occ(s.strong_refs(i), c));
        assert(occ(value.weak_refs(), c) <= s.held_weak(c) + occ(s.weak_refs(i), c));
    }
    assert(t.boxes_sound()) by {
        assert forall|j: int| t.has(j) implies {
            &&& ((#[trigger] t.boxes[j]).value.is_some() <==> t.boxes[j].strong > 0)
            &&& (t.boxes[j].color == Color::Black || t.boxes[j].color == Color::Purple)
            &&& (t.boxes[j].color == Color::Purple ==> t.boxes[j].buffered && t.boxes[j].strong > 0)
        } by {
            assert(s.boxes[j].value.is_some() <==> s.boxes[j].strong > 0);
        }
    }
    assert(t.roots_sound()) by {
        assert forall|j: int| t.has(j) implies ((#[trigger] t.boxes[j]).buffered <==> root_set(t.roots).contains(
            j,
        )) by {
            assert(s.boxes[j].buffered <==> root_set(s.roots).contains(j));
        }
    }
}

/// A covered heap stays covered when the payload of a live box is replaced
/// as above and a user holds the box afterwards, or the box is a candidate.
pub proof fn lemma_covered_with_value<T: Trace>(s: HeapState<T>, i: int, value: T)
    requires
        s.sound(),
        s.covered(),
        s.live(i),
        s.can_hold(i, value),
        s.with_value(i, Some(value)).bases().contains(i),
    ensures
        s.with_value(i, Some(value)).covered(),
{
    let t = s.with_value(i, Some(value));
    let adj = s.strong_adj();
    let tadj = t.strong_adj();
    lemma_with_value_sound(s, i, value);
    assert(tadj =~= adj.update(i, value.strong_refs())) by {
        assert forall|j: int| 0 <= j < adj.len() implies tadj[j] == adj.update(i, value.strong_refs())[j] by {
            assert(t.strong_refs(j) == if j == i {
                value.strong_refs()
            } else {
                s.strong_refs(j)
            });
        }
    }
    assert(adj[i] == s.strong_refs(i));
    lemma_reach_source(tadj, t.bases(), i);
    let gone = Set::<int>::empty();
    assert forall|b: int| s.bases().contains(b) implies gone.contains(b) || reachable(tadj, t.bases(), b) by {
        assert(t.held_strong(b) == s.held_strong(b) + occ(s.strong_refs(i), b) - occ(value.strong_refs(), b));
        if t.bases().contains(b) {
            lemma_reach_source(tadj, t.bases(), b);
        } else {
            assert(occ(value.strong_refs(), b) > 0);
            assert(has_edge(tadj, i, b));
            lemma_reach_step(tadj, t.bases(), i, b);
        }
    }
    assert forall|a: int, b: int|
        #[trigger] has_edge(adj, a, b) && (gone.contains(a) || reachable(tadj, t.bases(), a)) implies gone.contains(
        b,
    ) || reachable(tadj, t.bases(), b) by {
        lemma_occ_positive(adj[a], b);
        let k = choose|k: int| 0 <= k < adj[a].len() && adj[a][k] as int == b;
        assert(adj[a][k] < adj.len());
        if a != i {
            assert(tadj[a] == adj[a]);
            assert(has_edge(tadj, a, b));
            lemma_reach_step(tadj, t.bases(), a, b);
        } else {
            assert(t.held_strong(b) == s.held_strong(b) + occ(s.strong_refs(i), b) - occ(value.strong_refs(), b));
            assert(s.owned_strong(b) <= s.boxes[b].strong);
            if occ(value.strong_refs(), b) > 0 {
                assert(has_edge(tadj, i, b));
                lemma_reach_step(tadj, t.bases(), i, b);
            } else {
                assert(t.bases().contains(b));
                lemma_reach_source(tadj, t.bases(), b);
            }
        }
    }
    assert forall|x: int| t.live(x) implies #[trigger] reachable(tadj, t.bases(), x) by {
        assert(s.live(x));
        assert(reachable(adj, s.bases(), x));
        lemma_reach_transfer(adj, s.bases(), tadj, t.bases(), gone, x);
    }
}

/// A well-formed heap stays well formed when the payload of a live box is
/// replaced by a value whose handles a user held or the old payload owned,
/// if a user holds a strong handle to the box afterwards or the box is a
/// candidate. The handles that the old payload owned and the new one does
/// not are the users' from then on.
pub proof fn lemma_with_value_wf<T: Trace>(s: HeapState<T>, i: int, value: T)
    requires
        s.wf(),
        s.live(i),
        s.can_hold(i, value),
        s.held_strong(i) + occ(s.strong_refs(i), i) > occ(value.strong_refs(), i) || s.candidates().contains(i),
    ensures
        s.with_value(i, Some(value)).wf(),
        forall|c: int|
            s.has(c) ==> #[trigger] s.with_value(i, Some(value)).held_strong(c) == s.held_strong(c) + occ(
                s.strong_refs(i),
                c,
            ) - occ(value.strong_refs(), c),
        forall|c: int|
            s.has(c) ==> #[trigger] s.with_value(i, Some(value)).held_weak(c) == s.held_weak(c) + occ(
                s.weak_refs(i),
                c,
            ) - occ(value.weak_refs(), c),
{
    lemma_with_value_sound(s, i, value);
    let t = s.with_value(i, Some(value));
    assert(t.held_strong(i) == s.held_strong(i) + occ(s.strong_refs(i), i) - occ(value.strong_refs(), i));
    assert(t.candidates().contains(i) == s.candidates().contains(i));
    lemma_covered_with_value(s, i, value);
}

} // verus!
