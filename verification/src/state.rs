//! The mathematical model of a heap of boxes.
use crate::graph::{closed_graph, indegree, inflow, reach_set, reachable};
use crate::trace::Trace;
use crate::Color;
use vstd::prelude::*;

verus! {

/// What a box is: its counts, its color, its flag and its payload.
///
/// The payload is `None` once it has been destroyed. A box whose weak count
/// is zero has been deallocated.
pub struct BoxState<T> {
    /// The number of strong handles.
    pub strong: nat,
    /// The number of weak handles, the shared one included.
    pub weak: nat,
    /// The color.
    pub color: Color,
    /// Whether the box is in the buffer of possible roots.
    pub buffered: bool,
    /// The payload, until it is destroyed.
    pub value: Option<T>,
}

/// What a heap is: its boxes, by index, and its buffer of possible roots.
pub struct HeapState<T> {
    /// The boxes.
    pub boxes: Seq<BoxState<T>>,
    /// The buffer of possible roots, oldest first.
    pub roots: Seq<usize>,
}

/// The boxes in a buffer.
pub open spec fn root_set(roots: Seq<usize>) -> Set<int> {
    Set::new(|i: int| exists|k: int| 0 <= k < roots.len() && roots[k] as int == i)
}

/// No box is twice in the buffer.
pub open spec fn distinct(roots: Seq<usize>) -> bool {
    forall|k: int, l: int| 0 <= k < l < roots.len() ==> (#[trigger] roots[k]) != (#[trigger] roots[l])
}

/// An empty buffer holds no box.
pub proof fn lemma_root_set_empty()
    ensures
        root_set(Seq::empty()) == Set::<int>::empty(),
{
    assert(root_set(Seq::empty()) =~= Set::<int>::empty());
}

/// A buffer holds the box at each of its places.
pub proof fn lemma_root_set_at(roots: Seq<usize>, k: int)
    requires
        0 <= k < roots.len(),
    ensures
        root_set(roots).contains(roots[k] as int),
{
}

/// A buffer with a box appended holds that box beside the others.
pub proof fn lemma_root_set_push(roots: Seq<usize>, r: usize)
    ensures
        root_set(roots.push(r)) == root_set(roots).insert(r as int),
{
    let a = root_set(roots.push(r));
    let b = root_set(roots).insert(r as int);
    assert forall|i: int| a.contains(i) implies b.contains(i) by {
        let k = choose|k: int| 0 <= k < roots.push(r).len() && roots.push(r)[k] as int == i;
        if k < roots.len() {
            assert(roots[k] as int == i);
        }
    }
    assert forall|i: int| b.contains(i) implies a.contains(i) by {
        if i == r as int {
            assert(roots.push(r)[roots.len() as int] as int == i);
        } else {
            let k = choose|k: int| 0 <= k < roots.len() && roots[k] as int == i;
            assert(roots.push(r)[k] as int == i);
        }
    }
    assert(a =~= b);
}

/// Appending a box that the buffer does not hold repeats no box.
pub proof fn lemma_distinct_push(roots: Seq<usize>, r: usize)
    requires
        distinct(roots),
        !root_set(roots).contains(r as int),
    ensures
        distinct(roots.push(r)),
{
    let p = roots.push(r);
    assert forall|k: int, l: int| 0 <= k < l < p.len() implies (#[trigger] p[k]) != (#[trigger] p[l]) by {
        if l < roots.len() {
            assert(roots[k] != roots[l]);
        } else {
            assert(roots[k] as int != r as int);
        }
    }
}

impl<T: Trace> HeapState<T> {
    /// `i` is a box of the heap.
    pub open spec fn has(self, i: int) -> bool {
        0 <= i < self.boxes.len()
    }

    /// The boxes of the strong handles that the payload of box `i` owns.
    pub open spec fn strong_refs(self, i: int) -> Seq<usize> {
        match self.boxes[i].value {
            Some(v) => v.strong_refs(),
            None => Seq::empty(),
        }
    }

    /// The boxes of the weak handles that the payload of box `i` owns.
    pub open spec fn weak_refs(self, i: int) -> Seq<usize> {
        match self.boxes[i].value {
            Some(v) => v.weak_refs(),
            None => Seq::empty(),
        }
    }

    /// The graph of the strong handles that payloads own.
    pub open spec fn strong_adj(self) -> Seq<Seq<usize>> {
        Seq::new(self.boxes.len(), |i: int| self.strong_refs(i))
    }

    /// The graph of the weak handles that payloads own.
    pub open spec fn weak_adj(self) -> Seq<Seq<usize>> {
        Seq::new(self.boxes.len(), |i: int| self.weak_refs(i))
    }

    /// The number of strong handles to box `c` that payloads own.
    pub open spec fn owned_strong(self, c: int) -> nat {
        indegree(self.strong_adj(), c)
    }

    /// The number of weak handles to box `c` that payloads own.
    pub open spec fn owned_weak(self, c: int) -> nat {
        indegree(self.weak_adj(), c)
    }

    /// The weak handle that the strong handles of box `c` hold together. It
    /// lasts as long as a strong handle does, and for a box in the buffer
    /// until the box leaves it.
    pub open spec fn shared_weak(self, c: int) -> nat {
        if self.boxes[c].strong > 0 || self.boxes[c].buffered {
            1
        } else {
            0
        }
    }

    /// The number of strong handles to box `c` that no payload owns: those
    /// that the users of the heap hold.
    pub open spec fn held_strong(self, c: int) -> int {
        self.boxes[c].strong - self.owned_strong(c)
    }

    /// The number of weak handles to box `c` that the users of the heap hold.
    pub open spec fn held_weak(self, c: int) -> int {
        self.boxes[c].weak - self.owned_weak(c) - self.shared_weak(c)
    }

    /// The payload of box `i` has not been destroyed.
    pub open spec fn live(self, i: int) -> bool {
        self.has(i) && self.boxes[i].value.is_some()
    }

    /// The storage of box `i` has not been released.
    pub open spec fn allocated(self, i: int) -> bool {
        self.has(i) && self.boxes[i].weak > 0
    }

    /// The buffer holds boxes of the heap, none twice, and exactly those
    /// whose flag is set.
    pub open spec fn roots_sound(self) -> bool {
        &&& forall|k: int| 0 <= k < self.roots.len() ==> (#[trigger] self.roots[k]) < self.boxes.len()
        &&& distinct(self.roots)
        &&& forall|i: int|
            self.has(i) ==> ((#[trigger] self.boxes[i]).buffered <==> root_set(self.roots).contains(i))
    }

    /// Each count covers the handles that payloads own, and none is at the
    /// machine's limit.
    pub open spec fn counts_sound(self) -> bool {
        forall|c: int|
            self.has(c) ==> {
                &&& self.owned_strong(c) <= (#[trigger] self.boxes[c]).strong
                &&& self.owned_weak(c) + self.shared_weak(c) <= self.boxes[c].weak
                &&& self.boxes[c].strong < usize::MAX
                &&& self.boxes[c].weak < usize::MAX
            }
    }

    /// A payload lives exactly as long as a strong handle does; between
    /// collections boxes are black or purple, and a purple box is a possible
    /// root with a strong handle.
    pub open spec fn boxes_sound(self) -> bool {
        forall|i: int|
            self.has(i) ==> {
                &&& ((#[trigger] self.boxes[i]).value.is_some() <==> self.boxes[i].strong > 0)
                &&& (self.boxes[i].color == Color::Black || self.boxes[i].color == Color::Purple)
                &&& (self.boxes[i].color == Color::Purple ==> self.boxes[i].buffered && self.boxes[i].strong
                    > 0)
            }
    }

    /// The heap is sound: its counts, colors and flags fit together.
    pub open spec fn sound(self) -> bool {
        &&& self.boxes.len() <= usize::MAX
        &&& self.roots_sound()
        &&& closed_graph(self.strong_adj())
        &&& closed_graph(self.weak_adj())
        &&& self.counts_sound()
        &&& self.boxes_sound()
    }

    /// The possible roots that a collection starts from: the boxes in the
    /// buffer that are still purple and still have a strong handle.
    pub open spec fn candidates(self) -> Set<int> {
        Set::new(
            |r: int|
                self.has(r) && self.boxes[r].buffered && self.boxes[r].color == Color::Purple
                    && self.boxes[r].strong > 0,
        )
    }

    /// The boxes that a user holds a strong handle to.
    pub open spec fn held_set(self) -> Set<int> {
        Set::new(|h: int| self.has(h) && self.held_strong(h) > 0)
    }

    /// A user can reach box `x`: it is a box that a user holds a strong
    /// handle to, or one that can be reached from such a box along the
    /// strong handles that payloads own.
    pub open spec fn in_reach(self, x: int) -> bool {
        reachable(self.strong_adj(), self.held_set(), x)
    }

    /// No user holds a strong handle.
    pub open spec fn unheld(self) -> bool {
        forall|i: int| self.has(i) ==> #[trigger] self.held_strong(i) == 0
    }

    /// The boxes from which a search for live boxes may start: those that a
    /// user holds a strong handle to, and the candidates of a collection.
    pub open spec fn bases(self) -> Set<int> {
        Set::new(|b: int| self.has(b) && (self.held_strong(b) > 0 || self.candidates().contains(b)))
    }

    /// Every live box can be reached from a box that a user holds or from a
    /// candidate: no live box is lost to both the users and the collector.
    pub open spec fn covered(self) -> bool {
        forall|x: int| self.live(x) ==> #[trigger] reachable(self.strong_adj(), self.bases(), x)
    }

    /// The heap is well formed: sound, and covered. This holds of a heap
    /// without boxes, and every operation on handles and every collection
    /// keeps it.
    pub open spec fn wf(self) -> bool {
        self.sound() && self.covered()
    }

    /// The boxes that a collection looks at: those that can be reached from a
    /// candidate along strong handles that payloads own.
    pub open spec fn marked(self) -> Set<int> {
        reach_set(self.strong_adj(), self.candidates())
    }

    /// The strong count of box `c` without the handles that the payloads of
    /// marked boxes own.
    pub open spec fn trial_strong(self, c: int) -> int {
        self.boxes[c].strong - inflow(self.strong_adj(), self.marked(), c)
    }

    /// The marked boxes that something other than a marked box holds.
    pub open spec fn anchors(self) -> Set<int> {
        Set::new(|m: int| self.marked().contains(m) && self.trial_strong(m) > 0)
    }

    /// The boxes that an anchor keeps alive.
    pub open spec fn rescued(self) -> Set<int> {
        reach_set(self.strong_adj(), self.anchors())
    }

    /// The boxes that a collection destroys: the marked boxes that no anchor
    /// keeps alive.
    pub open spec fn garbage(self) -> Set<int> {
        Set::new(|x: int| self.marked().contains(x) && !self.rescued().contains(x))
    }

    /// Box `i` waits in the buffer for the release of its storage: its
    /// payload was destroyed while it was buffered.
    pub open spec fn deferred(self, i: int) -> bool {
        self.boxes[i].buffered && self.boxes[i].color == Color::Black && self.boxes[i].strong == 0
    }

    /// Box `i` after a collection.
    pub open spec fn collected_box(self, i: int) -> BoxState<T> {
        let b = self.boxes[i];
        let lost_weak = inflow(self.weak_adj(), self.garbage(), i);
        if self.garbage().contains(i) {
            BoxState {
                strong: 0,
                weak: (b.weak - 1 - lost_weak) as nat,
                color: Color::Black,
                buffered: false,
                value: None,
            }
        } else {
            BoxState {
                strong: (b.strong - inflow(self.strong_adj(), self.garbage(), i)) as nat,
                weak: (b.weak - lost_weak - if self.deferred(i) {
                    1int
                } else {
                    0int
                }) as nat,
                color: Color::Black,
                buffered: false,
                value: b.value,
            }
        }
    }

    /// The heap after a collection.
    ///
    /// The garbage is destroyed: each box of it loses its payload and the
    /// weak handle that its strong handles shared, and every box loses the
    /// handles that the destroyed payloads owned. A box that waited in the
    /// buffer for the release of its storage gives up its shared weak handle.
    /// Every box is black, and the buffer is empty.
    pub open spec fn collected(self) -> HeapState<T> {
        HeapState { boxes: Seq::new(self.boxes.len(), |i: int| self.collected_box(i)), roots: Seq::empty() }
    }
}

} // verus!
