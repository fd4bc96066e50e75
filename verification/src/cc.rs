//! Strong and weak handles.
use crate::cc_box_ptr::free;
use crate::collect::add_root;
use crate::cover::{
    lemma_covered_cloned, lemma_covered_dropped, lemma_covered_emptied, lemma_covered_new,
    lemma_covered_weak_cloned, lemma_covered_weak_dropped,
};
use crate::graph::{
    all_nodes, closed_graph, lemma_indegree_push, lemma_inflow_zero, lemma_occ_at, lemma_occ_positive, occ,
};
use crate::heap::Heap;
use crate::release::{
    lemma_live_destroyed, lemma_live_finite, lemma_live_same, lemma_release_decrement, lemma_release_empty,
    lemma_release_held, lemma_release_inv_sound, lemma_release_skip, lemma_release_start, lemma_release_weak,
    lemma_same_graphs, release_inv,
};
use crate::state::{root_set, BoxState, HeapState};
use crate::trace::{Trace, Tracer};
use crate::{CcBoxData, Color};
use std::marker::PhantomData;
use std::rc::Rc;
use vstd::prelude::*;

verus! {

/// A strong handle to a box of a heap.
///
/// The handle counts as one in the strong count of its box for as long as
/// it exists. It is given up with [`Cc::drop`], handed to a payload by moving
/// it there, and multiplied with [`Cc::clone`].
///
/// A handle stays on the thread that made it.
pub struct Cc {
    ptr: usize,
    here: PhantomData<Rc<()>>,
}

/// A weak handle to a box of a heap.
///
/// The handle does not keep the payload of its box alive; it only keeps the
/// storage of the box from being released.
///
/// A handle stays on the thread that made it.
pub struct Weak {
    ptr: usize,
    here: PhantomData<Rc<()>>,
}

impl<T: Trace> HeapState<T> {
    /// A fresh box with the given payload: one strong handle, the weak
    /// handle that the strong handles share, black, not buffered.
    pub open spec fn fresh(value: T) -> BoxState<T> {
        BoxState { strong: 1, weak: 1, color: Color::Black, buffered: false, value: Some(value) }
    }

    /// The users of the heap hold every handle that `value` owns, so that
    /// `value` can become a payload.
    pub open spec fn can_own(self, value: T) -> bool {
        &&& forall|c: int|
            {
                &&& (#[trigger] occ(value.strong_refs(), c) > 0 ==> self.has(c))
                &&& (self.has(c) ==> occ(value.strong_refs(), c) <= self.held_strong(c))
            }
        &&& forall|c: int|
            {
                &&& (#[trigger] occ(value.weak_refs(), c) > 0 ==> self.has(c))
                &&& (self.has(c) ==> occ(value.weak_refs(), c) <= self.held_weak(c))
            }
    }

    /// The heap after a strong handle to box `i` has been made from another
    /// one: the count is one higher, and the box is black.
    pub open spec fn strong_cloned(self, i: int) -> HeapState<T> {
        self.with_box(i, BoxState { strong: self.boxes[i].strong + 1, color: Color::Black, ..self.boxes[i] })
    }

    /// The heap after a weak handle to box `i` has been made.
    pub open spec fn weak_cloned(self, i: int) -> HeapState<T> {
        self.with_box(i, BoxState { weak: self.boxes[i].weak + 1, ..self.boxes[i] })
    }

    /// Box `i` has one strong handle and no weak handle but the shared one.
    pub open spec fn unique(self, i: int) -> bool {
        self.boxes[i].strong == 1 && self.boxes[i].weak == 1
    }
}

/// A sound heap stays sound when a value whose handles the users
/// hold becomes the payload of a new box.
pub proof fn lemma_new_sound<T: Trace>(s: HeapState<T>, value: T)
    requires
        s.sound(),
        s.can_own(value),
        s.boxes.len() < usize::MAX,
    ensures
        s.with_new_box(HeapState::<T>::fresh(value)).sound(),
        s.with_new_box(HeapState::<T>::fresh(value)).held_strong(s.boxes.len() as int) == 1,
{
    let t = s.with_new_box(HeapState::<T>::fresh(value));
    let n = s.boxes.len() as int;
    let adj = s.strong_adj();
    let wadj = s.weak_adj();
    assert(t.strong_adj() =~= adj.push(value.strong_refs())) by {
        assert forall|j: int| 0 <= j < t.strong_adj().len() implies t.strong_adj()[j] == adj.push(
            value.strong_refs(),
        )[j] by {
            assert(t.strong_refs(j) == if j < n {
                s.strong_refs(j)
            } else {
                value.strong_refs()
            });
        }
    }
    assert(t.weak_adj() =~= wadj.push(value.weak_refs())) by {
        assert forall|j: int| 0 <= j < t.weak_adj().len() implies t.weak_adj()[j] == wadj.push(value.weak_refs())[j] by {
            assert(t.weak_refs(j) == if j < n {
                s.weak_refs(j)
            } else {
                value.weak_refs()
            });
        }
    }
    assert(closed_graph(t.strong_adj())) by {
        assert forall|a: int, k: int| 0 <= a < t.strong_adj().len() && 0 <= k < t.strong_adj()[a].len() implies (
        #[trigger] t.strong_adj()[a][k]) < t.strong_adj().len() by {
            if a < n {
                assert(adj[a][k] < adj.len());
            } else {
                lemma_occ_at(value.strong_refs(), k);
            }
        }
    }
    assert(closed_graph(t.weak_adj())) by {
        assert forall|a: int, k: int| 0 <= a < t.weak_adj().len() && 0 <= k < t.weak_adj()[a].len() implies (
        #[trigger] t.weak_adj()[a][k]) < t.weak_adj().len() by {
            if a < n {
                assert(wadj[a][k] < wadj.len());
            } else {
                lemma_occ_at(value.weak_refs(), k);
            }
        }
    }
    assert forall|c: int| t.has(c) implies {
        &&& t.owned_strong(c) <= (#[trigger] t.boxes[c]).strong
        &&& t.owned_weak(c) + t.shared_weak(c) <= t.boxes[c].weak
        &&& t.boxes[c].strong < usize::MAX
        &&& t.boxes[c].weak < usize::MAX
        &&& (c == n ==> t.owned_strong(c) == 0)
    } by {
        lemma_indegree_push(adj, value.strong_refs(), c);
        lemma_indegree_push(wadj, value.weak_refs(), c);
        assert(occ(value.strong_refs(), c) > 0 ==> s.has(c));
        if c < n {
            assert(s.owned_strong(c) <= s.boxes[c].strong);
            assert(s.owned_weak(c) + s.shared_weak(c) <= s.boxes[c].weak);
        } else {
            assert forall|j: int| 0 <= j < adj.len() && all_nodes(adj).contains(j) implies occ(adj[j], c) == 0 by {
                if occ(adj[j], c) > 0 {
                    lemma_occ_positive(adj[j], c);
                    let k = choose|k: int| 0 <= k < adj[j].len() && adj[j][k] as int == c;
                    assert(adj[j][k] < adj.len());
                }
            }
            lemma_inflow_zero(adj, all_nodes(adj), c);
            assert forall|j: int| 0 <= j < wadj.len() && all_nodes(wadj).contains(j) implies occ(wadj[j], c)
                == 0 by {
                if occ(wadj[j], c) > 0 {
                    lemma_occ_positive(wadj[j], c);
                    let k = choose|k: int| 0 <= k < wadj[j].len() && wadj[j][k] as int == c;
                    assert(wadj[j][k] < wadj.len());
                }
            }
            lemma_inflow_zero(wadj, all_nodes(wadj), c);
        }
    }
    assert(t.boxes_sound()) by {
        assert forall|j: int| t.has(j) implies {
            &&& ((#[trigger] t.boxes[j]).value.is_some() <==> t.boxes[j].strong > 0)
            &&& (t.boxes[j].color == Color::Black || t.boxes[j].color == Color::Purple)
            &&& (t.boxes[j].color == Color::Purple ==> t.boxes[j].buffered && t.boxes[j].strong > 0)
        } by {
            if j < n {
                assert(s.boxes[j].value.is_some() <==> s.boxes[j].strong > 0);
            }
        }
    }
    assert(t.roots_sound()) by {
        assert forall|j: int| t.has(j) implies ((#[trigger] t.boxes[j]).buffered <==> root_set(t.roots).contains(
            j,
        )) by {
            if j < n {
                assert(s.boxes[j].buffered <==> root_set(s.roots).contains(j));
            } else {
                if root_set(s.roots).contains(j) {
                    let k = choose|k: int| 0 <= k < s.roots.len() && s.roots[k] as int == j;
                    assert(s.roots[k] < s.boxes.len());
                }
            }
        }
    }
}

/// A sound heap stays sound when the header of a box with a
/// strong handle changes in a way that keeps its counts at least as high
/// and does not make it purple.
pub proof fn lemma_raise_sound<T: Trace>(s: HeapState<T>, i: int, b: BoxState<T>)
    requires
        s.sound(),
        s.has(i),
        s.boxes[i].strong > 0,
        b.value == s.boxes[i].value,
        b.buffered == s.boxes[i].buffered,
        b.strong >= s.boxes[i].strong,
        b.weak >= s.boxes[i].weak,
        b.strong < usize::MAX,
        b.weak < usize::MAX,
        b.color == Color::Black || b.color == s.boxes[i].color,
    ensures
        s.with_box(i, b).sound(),
        s.with_box(i, b).held_strong(i) == s.held_strong(i) + b.strong - s.boxes[i].strong,
        s.with_box(i, b).held_weak(i) == s.held_weak(i) + b.weak - s.boxes[i].weak,
        forall|j: int|
            s.has(j) && j != i ==> s.with_box(i, b).held_strong(j) == s.held_strong(j) && s.with_box(
                i,
                b,
            ).held_weak(j) == s.held_weak(j),
{
    let t = s.with_box(i, b);
    lemma_same_graphs(s, t);
    assert forall|c: int| t.has(c) implies {
        &&& t.owned_strong(c) <= (#[trigger] t.boxes[c]).strong
        &&& t.owned_weak(c) + t.shared_weak(c) <= t.boxes[c].weak
        &&& t.boxes[c].strong < usize::MAX
        &&& t.boxes[c].weak < usize::MAX
    } by {
        assert(s.owned_strong(c) <= s.boxes[c].strong);
        assert(s.owned_weak(c) + s.shared_weak(c) <= s.boxes[c].weak);
    }
    assert(t.boxes_sound()) by {
        assert forall|j: int| t.has(j) implies {
            &&& ((#[trigger] t.boxes[j]).value.is_some() <==> t.boxes[j].strong > 0)
            &&& (t.boxes[j].color == Color::Black || t.boxes[j].color == Color::Purple)
            &&& (t.boxes[j].color == Color::Purple ==> t.boxes[j].buffered && t.boxes[j].strong > 0)
        } by {
            assert(s.boxes[j].value.is_some() <==> s.boxes[j].strong > 0);
        }
    }
    assert(t.roots_sound()) by {
        assert forall|j: int| t.has(j) implies ((#[trigger] t.boxes[j]).buffered <==> root_set(t.roots).contains(
            j,
        )) by {
            assert(s.boxes[j].buffered <==> root_set(s.roots).contains(j));
        }
    }
}

impl Cc {
    /// The box that the handle points to.
    pub closed spec fn id(&self) -> int {
        self.ptr as int
    }

    /// The index of the box that the handle points to.
    pub fn index(&self) -> (i: usize)
        ensures
            i == self.id(),
    {
        self.ptr
    }

    /// Notes box `i`, which has lost a strong handle and kept another, as the
    /// possible root of a cycle.
    pub(crate) fn possible_root<T: Trace>(heap: &mut Heap<T>, i: usize)
        requires
            old(heap)@.has(i as int),
        ensures
            final(heap)@ == old(heap)@.suspected(i),
    {
        let d = *heap.data(i);
        if d.color == Color::Purple {
            return ;
        }
        heap.set_data(i, CcBoxData { strong: d.strong, weak: d.weak, buffered: d.buffered, color: Color::Purple });
        if d.buffered {
            assert(heap@ == old(heap)@.suspected(i));
            return ;
        }
        add_root(heap, i);
        assert(heap@.boxes =~= old(heap)@.suspected(i).boxes);
    }

    /// Gives up the strong handles that are put aside in `pend`, and all that
    /// the payloads destroyed on the way owned.
    pub(crate) fn release<T: Trace>(heap: &mut Heap<T>, pend: &mut Tracer)
        requires
            release_inv(old(heap)@, old(pend).strong(), Seq::empty()),
            old(pend).weak().len() == 0,
        ensures
            final(heap)@ == old(heap)@.released(old(pend).strong()),
            final(heap)@.sound(),
    {
        assert(pend.weak() =~= Seq::<usize>::empty());
        loop
            invariant
                release_inv(heap@, pend.strong(), Seq::empty()),
                pend.weak() == Seq::<usize>::empty(),
                heap@.released(pend.strong()) == old(heap)@.released(old(pend).strong()),
            ensures
                pend.strong().len() == 0,
                release_inv(heap@, pend.strong(), Seq::empty()),
                heap@.released(pend.strong()) == old(heap)@.released(old(pend).strong()),
            decreases heap@.live_set().len(), pend.strong().len(),
        {
            let ghost s = heap@;
            let ghost p = pend.strong();
            let next = pend.pop_strong();
            if next.is_none() {
                break;
            }
            let i = next.unwrap();
            assert(i == p[p.len() - 1]);
            proof {
                lemma_release_held(s, p, Seq::empty());
                lemma_live_finite(s);
            }
            let d = *heap.data(i);
            if d.strong > 0 {
                if d.strong > 1 {
                    proof {
                        lemma_release_decrement(s, p);
                        lemma_live_same(s, s.decremented(i));
                    }
                    heap.set_data(
                        i,
                        CcBoxData { strong: d.strong - 1, weak: d.weak, buffered: d.buffered, color: d.color },
                    );
                    Cc::possible_root(heap, i);
                    assert(heap@ == s.decremented(i));
                } else {
                    proof {
                        lemma_release_empty(s, p);
                        lemma_live_destroyed(s, i as int);
                    }
                    let payload = heap.take_value(i);
                    heap.set_data(
                        i,
                        CcBoxData { strong: 0, weak: d.weak, buffered: d.buffered, color: Color::Black },
                    );
                    if !d.buffered {
                        free(heap, i);
                    }
                    assert(heap@ == s.emptied(i as int)) by {
                        assert(heap@.boxes =~= s.emptied(i as int).boxes);
                    }
                    match &payload {
                        Some(v) => {
                            v.trace(pend);
                        },
                        None => {},
                    }
                    assert(pend.strong() =~= p.drop_last() + s.strong_refs(i as int));
                    assert(pend.weak() =~= s.weak_refs(i as int));
                    let ghost e = heap@;
                    loop
                        invariant
                            release_inv(heap@, pend.strong(), pend.weak()),
                            heap@.weaks_dropped(pend.weak()) == e.weaks_dropped(s.weak_refs(i as int)),
                            pend.strong() == p.drop_last() + s.strong_refs(i as int),
                        ensures
                            pend.weak().len() == 0,
                            release_inv(heap@, pend.strong(), pend.weak()),
                            heap@.weaks_dropped(pend.weak()) == e.weaks_dropped(s.weak_refs(i as int)),
                        decreases pend.weak().len(),
                    {
                        let ghost t = heap@;
                        let ghost wp = pend.weak();
                        let next = pend.pop_weak();
                        if next.is_none() {
                            break;
                        }
                        let w = next.unwrap();
                        assert(w == wp[wp.len() - 1]);
                        proof {
                            lemma_release_weak(t, pend.strong(), wp);
                        }
                        Weak::release(heap, w);
                    }
                    assert(pend.weak() =~= Seq::<usize>::empty());
                    assert(heap@ == s.destroyed(i as int));
                }
            } else {
                proof {
                    lemma_release_skip(s, p);
                }
            }
        }
        proof {
            assert(pend.strong() =~= Seq::<usize>::empty());
            lemma_release_inv_sound(heap@);
        }
    }

    /// Makes a box with the given payload and returns the strong handle to
    /// it. The box is black and not buffered; it has one strong handle and
    /// the weak handle that the strong handles share.
    ///
    /// The handles that `value` owns must be handles that the caller held.
    pub fn new<T: Trace>(heap: &mut Heap<T>, value: T) -> (cc: Cc)
        requires
            old(heap)@.wf(),
            old(heap)@.can_own(value),
            old(heap)@.boxes.len() < usize::MAX,
        ensures
            cc.id() == old(heap)@.boxes.len(),
            final(heap)@ == old(heap)@.with_new_box(HeapState::<T>::fresh(value)),
            final(heap)@.wf(),
            final(heap)@.held_strong(cc.id()) == 1,
    {
        proof {
            lemma_new_sound(heap@, value);
            lemma_covered_new(heap@, value);
        }
        let ptr = heap.push_box(value, CcBoxData::new());
        Cc { ptr, here: PhantomData }
    }

    /// Makes another strong handle to the same box. The strong count goes up
    /// by one, and the box turns black: it is in use, so it is no candidate
    /// for collection.
    pub fn clone<T: Trace>(&self, heap: &mut Heap<T>) -> (cc: Cc)
        requires
            old(heap)@.wf(),
            old(heap)@.has(self.id()),
            old(heap)@.boxes[self.id()].strong > 0,
            old(heap)@.boxes[self.id()].strong + 1 < usize::MAX,
        ensures
            cc.id() == self.id(),
            final(heap)@ == old(heap)@.strong_cloned(self.id()),
            final(heap)@.wf(),
            final(heap)@.held_strong(self.id()) == old(heap)@.held_strong(self.id()) + 1,
    {
        let d = *heap.data(self.ptr);
        proof {
            lemma_raise_sound(heap@, self.id(), heap@.strong_cloned(self.id()).boxes[self.id()]);
            lemma_covered_cloned(heap@, self.id());
        }
        heap.set_data(
            self.ptr,
            CcBoxData { strong: d.strong + 1, weak: d.weak, buffered: d.buffered, color: Color::Black },
        );
        assert(heap@ == old(heap)@.strong_cloned(self.id()));
        Cc { ptr: self.ptr, here: PhantomData }
    }

    /// Gives the handle up.
    ///
    /// If the box has other strong handles, its count goes down by one and
    /// it becomes a possible root: purple, and in the buffer. If this was the
    /// last strong handle, the payload is destroyed at once, the handles
    /// that it owned are given up in turn, and the storage of the box is
    /// released unless the box is in the buffer or a weak handle holds it.
    pub fn drop<T: Trace>(self, heap: &mut Heap<T>)
        requires
            old(heap)@.wf(),
            old(heap)@.has(self.id()),
            old(heap)@.held_strong(self.id()) >= 1,
        ensures
            final(heap)@ == old(heap)@.dropped(self.id() as usize),
            final(heap)@.wf(),
    {
        let mut pend = Tracer::new();
        pend.visit_strong(self.ptr);
        proof {
            assert(pend.strong() =~= seq![self.ptr]);
            lemma_release_start(heap@, self.ptr);
            lemma_covered_dropped(heap@, self.ptr);
        }
        Cc::release(heap, &mut pend);
    }

    /// Makes a weak handle to the box.
    pub fn downgrade<T: Trace>(&self, heap: &mut Heap<T>) -> (w: Weak)
        requires
            old(heap)@.wf(),
            old(heap)@.has(self.id()),
            old(heap)@.boxes[self.id()].strong > 0,
            old(heap)@.boxes[self.id()].weak + 1 < usize::MAX,
        ensures
            w.id() == self.id(),
            final(heap)@ == old(heap)@.weak_cloned(self.id()),
            final(heap)@.wf(),
            final(heap)@.held_weak(self.id()) == old(heap)@.held_weak(self.id()) + 1,
    {
        let d = *heap.data(self.ptr);
        proof {
            lemma_raise_sound(heap@, self.id(), heap@.weak_cloned(self.id()).boxes[self.id()]);
            lemma_covered_weak_cloned(heap@, self.id());
        }
        heap.set_data(
            self.ptr,
            CcBoxData { strong: d.strong, weak: d.weak + 1, buffered: d.buffered, color: d.color },
        );
        assert(heap@ == old(heap)@.weak_cloned(self.id()));
        Weak { ptr: self.ptr, here: PhantomData }
    }

    /// The number of strong handles to the box.
    pub fn strong_count<T: Trace>(&self, heap: &Heap<T>) -> (n: usize)
        requires
            heap@.has(self.id()),
        ensures
            n == heap@.boxes[self.id()].strong,
    {
        heap.data(self.ptr).strong
    }

    /// The number of weak handles to the box, without the one that the
    /// strong handles share.
    pub fn weak_count<T: Trace>(&self, heap: &Heap<T>) -> (n: usize)
        requires
            heap@.has(self.id()),
            heap@.boxes[self.id()].weak >= 1,
        ensures
            n == heap@.boxes[self.id()].weak - 1,
    {
        heap.data(self.ptr).weak - 1
    }

    /// Whether this is the only handle to the box, strong or weak.
    pub fn is_unique<T: Trace>(&self, heap: &Heap<T>) -> (b: bool)
        requires
            heap@.has(self.id()),
            heap@.boxes[self.id()].weak >= 1,
        ensures
            b == heap@.unique(self.id()),
    {
        self.weak_count(heap) == 0 && self.strong_count(heap) == 1
    }

    /// Whether the two handles point to the same box.
    pub fn ptr_eq(this: &Cc, other: &Cc) -> (b: bool)
        ensures
            b == (this.id() == other.id()),
    {
        this.ptr == other.ptr
    }

    /// The payload of the box.
    pub fn deref<'a, T: Trace>(&self, heap: &'a Heap<T>) -> (v: &'a T)
        requires
            heap@.live(self.id()),
        ensures
            Some(*v) == heap@.boxes[self.id()].value,
    {
        heap.value_ref(self.ptr)
    }

    /// The payload of the box, to be changed in place, whether or not the
    /// box has other handles.
    ///
    /// The heap afterwards holds the payload as the caller leaves it. It is
    /// well formed if the caller held the handles that the payload has come
    /// to own and still holds this one: see
    /// [`lemma_with_value_wf`](crate::payload::lemma_with_value_wf).
    pub fn borrow_mut<'a, T: Trace>(&self, heap: &'a mut Heap<T>) -> (v: &'a mut T)
        requires
            old(heap)@.live(self.id()),
        ensures
            Some(*v) == old(heap)@.boxes[self.id()].value,
            final(heap)@ == old(heap)@.with_value(self.id(), Some(*final(v))),
    {
        heap.value_mut(self.ptr)
    }

    /// Takes the payload out of the box if this is the only handle to it,
    /// and hands the handle back otherwise.
    ///
    /// The payload is not destroyed: the handles that it owns are the
    /// caller's from now on. The storage of the box is released at once,
    /// unless the box is in the buffer: then it is released when the box
    /// leaves the buffer.
    pub fn try_unwrap<T: Trace>(self, heap: &mut Heap<T>) -> (r: Result<T, Cc>)
        requires
            old(heap)@.wf(),
            old(heap)@.has(self.id()),
            old(heap)@.held_strong(self.id()) >= 1,
        ensures
            final(heap)@.wf(),
            old(heap)@.unique(self.id()) ==> (r matches Ok(v) && Some(v) == old(heap)@.boxes[self.id()].value)
                && final(heap)@ == old(heap)@.emptied(self.id()),
            !old(heap)@.unique(self.id()) ==> (r matches Err(c) && c.id() == self.id()) && final(heap)@ == old(
                heap,
            )@,
    {
        let ghost s = heap@;
        proof {
            assert(s.owned_weak(self.id()) + s.shared_weak(self.id()) <= s.boxes[self.id()].weak);
        }
        if self.is_unique(heap) {
            proof {
                lemma_release_start(s, self.ptr);
                lemma_release_empty(s, seq![self.ptr]);
                lemma_emptied_sound(s, self.ptr);
                lemma_covered_emptied(s, seq![self.ptr]);
            }
            let d = *heap.data(self.ptr);
            let payload = heap.take_value(self.ptr);
            heap.set_data(
                self.ptr,
                CcBoxData { strong: 0, weak: d.weak, buffered: d.buffered, color: Color::Black },
            );
            if !d.buffered {
                free(heap, self.ptr);
            }
            assert(heap@ == s.emptied(self.id())) by {
                assert(heap@.boxes =~= s.emptied(self.id()).boxes);
            }
            match payload {
                Some(v) => Ok(v),
                None => unreached(),
            }
        } else {
            Err(self)
        }
    }

    /// The payload of the box, to be changed in place, if this is the only
    /// handle to the box.
    pub fn get_mut<'a, T: Trace>(&mut self, heap: &'a mut Heap<T>) -> (r: Option<&'a mut T>)
        requires
            old(heap)@.wf(),
            old(heap)@.has(old(self).id()),
        ensures
            final(self).id() == old(self).id(),
            old(heap)@.unique(old(self).id()) ==> r.is_some() && Some(*r.unwrap()) == old(heap)@.boxes[old(
                self,
            ).id()].value && final(heap)@ == old(heap)@.with_value(old(self).id(), Some(*final(r.unwrap()))),
            !old(heap)@.unique(old(self).id()) ==> r.is_none() && final(heap)@ == old(heap)@,
    {
        let d = *heap.data(self.ptr);
        if d.weak == 1 && d.strong == 1 {
            Some(heap.value_mut(self.ptr))
        } else {
            None
        }
    }

    /// The payload of a box that has no other handle, to be changed in
    /// place.
    ///
    /// If this is the only handle to its box, that is the box. Otherwise the
    /// payload is copied into a new box, this handle is given up as by
    /// [`Cc::drop`], and the handle points to the new box from now on.
    ///
    /// A copy of the payload is a value of its own: it must own no handle.
    pub fn make_unique<'a, T: Trace + Clone>(&mut self, heap: &'a mut Heap<T>) -> (v: &'a mut T)
        requires
            old(heap)@.wf(),
            old(heap)@.has(old(self).id()),
            old(heap)@.held_strong(old(self).id()) >= 1,
            !old(heap)@.unique(old(self).id()) ==> old(heap)@.boxes.len() < usize::MAX,
            !old(heap)@.unique(old(self).id()) ==> forall|c: T| #[trigger]
                cloned(old(heap)@.boxes[old(self).id()].value.unwrap(), c) ==> c.strong_refs().len() == 0
                    && c.weak_refs().len() == 0,
        ensures
            old(heap)@.unique(old(self).id()) ==> final(self).id() == old(self).id() && Some(*v) == old(
                heap,
            )@.boxes[old(self).id()].value && final(heap)@ == old(heap)@.with_value(
                old(self).id(),
                Some(*final(v)),
            ),
            !old(heap)@.unique(old(self).id()) ==> final(self).id() == old(heap)@.boxes.len() && cloned(
                old(heap)@.boxes[old(self).id()].value.unwrap(),
                *v,
            ) && final(heap)@ == old(heap)@.dropped(old(self).id() as usize).with_new_box(
                HeapState::<T>::fresh(*final(v)),
            ),
    {
        let ghost s = heap@;
        let d = *heap.data(self.ptr);
        proof {
            assert(s.owned_strong(self.id()) <= s.boxes[self.id()].strong);
            assert(s.boxes[self.id()].value.is_some() <==> s.boxes[self.id()].strong > 0);
        }
        if !(d.weak == 1 && d.strong == 1) {
            let copy = heap.value_ref(self.ptr).clone();
            assert(cloned(s.boxes[self.id()].value.unwrap(), copy));
            let old_handle = Cc { ptr: self.ptr, here: PhantomData };
            old_handle.drop(heap);
            proof {
                let t = heap@;
                assert forall|c: int| occ(copy.strong_refs(), c) == 0 && occ(copy.weak_refs(), c) == 0 by {
                    assert(copy.strong_refs() =~= Seq::<usize>::empty());
                    assert(copy.weak_refs() =~= Seq::<usize>::empty());
                }
                assert forall|c: int| t.has(c) implies t.held_strong(c) >= 0 && t.held_weak(c) >= 0 by {
                    assert(t.owned_strong(c) <= t.boxes[c].strong);
                    assert(t.owned_weak(c) + t.shared_weak(c) <= t.boxes[c].weak);
                }
                crate::release::lemma_released_len(s, seq![self.ptr]);
            }
            let fresh = Cc::new(heap, copy);
            self.ptr = fresh.ptr;
            let ghost t = heap@;
            let r = heap.value_mut(self.ptr);
            proof {
                assert(t.with_value(self.id(), Some(*final(r))).boxes =~= s.dropped(old(self).id() as usize).with_new_box(
                    HeapState::<T>::fresh(*final(r)),
                ).boxes);
            }
            r
        } else {
            heap.value_mut(self.ptr)
        }
    }
}

/// Emptying a box whose last strong handle its holder gives up leaves the
/// heap sound, whatever becomes of the handles that the payload owned.
pub proof fn lemma_emptied_sound<T: Trace>(s: HeapState<T>, i: usize)
    requires
        s.sound(),
        s.has(i as int),
        s.held_strong(i as int) >= 1,
        s.boxes[i as int].strong == 1,
    ensures
        s.emptied(i as int).sound(),
{
    lemma_release_start(s, i);
    lemma_release_empty(s, seq![i]);
    let t = s.emptied(i as int);
    let pend = seq![i].drop_last() + s.strong_refs(i as int);
    let wpend = s.weak_refs(i as int);
    assert(release_inv(t, pend, wpend));
    assert forall|c: int| t.has(c) implies {
        &&& t.owned_strong(c) <= (#[trigger] t.boxes[c]).strong
        &&& t.owned_weak(c) + t.shared_weak(c) <= t.boxes[c].weak
    } by {
        assert(t.owned_strong(c) + occ(pend, c) <= t.boxes[c].strong);
        assert(t.owned_weak(c) + t.shared_weak(c) + occ(wpend, c) <= t.boxes[c].weak);
    }
}

impl Weak {
    /// The box that the handle points to.
    pub closed spec fn id(&self) -> int {
        self.ptr as int
    }

    /// The index of the box that the handle points to.
    pub fn index(&self) -> (i: usize)
        ensures
            i == self.id(),
    {
        self.ptr
    }

    /// Gives up a weak handle to box `w`.
    pub(crate) fn release<T: Trace>(heap: &mut Heap<T>, w: usize)
        requires
            old(heap)@.has(w as int),
        ensures
            final(heap)@ == old(heap)@.weak_dropped(w as int),
    {
        let d = *heap.data(w);
        if d.weak > 0 {
            heap.set_data(w, CcBoxData { strong: d.strong, weak: d.weak - 1, buffered: d.buffered, color: d.color });
            assert(heap@ == old(heap)@.weak_dropped(w as int));
        }
    }

    /// Makes a strong handle to the box if its payload still lives.
    ///
    /// Returns a handle exactly when the box has a strong handle. The new
    /// handle raises the strong count by one and turns the box black.
    pub fn upgrade<T: Trace>(&self, heap: &mut Heap<T>) -> (r: Option<Cc>)
        requires
            old(heap)@.wf(),
            old(heap)@.has(self.id()),
            old(heap)@.boxes[self.id()].strong + 1 < usize::MAX,
        ensures
            r.is_some() <==> old(heap)@.boxes[self.id()].strong > 0,
            r.is_some() ==> r.unwrap().id() == self.id() && final(heap)@ == old(heap)@.strong_cloned(self.id())
                && final(heap)@.held_strong(self.id()) == old(heap)@.held_strong(self.id()) + 1,
            r.is_none() ==> final(heap)@ == old(heap)@,
            final(heap)@.wf(),
    {
        let d = *heap.data(self.ptr);
        if d.strong == 0 {
            None
        } else {
            proof {
                lemma_raise_sound(heap@, self.id(), heap@.strong_cloned(self.id()).boxes[self.id()]);
                lemma_covered_cloned(heap@, self.id());
            }
            heap.set_data(
                self.ptr,
                CcBoxData { strong: d.strong + 1, weak: d.weak, buffered: d.buffered, color: Color::Black },
            );
            assert(heap@ == old(heap)@.strong_cloned(self.id()));
            Some(Cc { ptr: self.ptr, here: PhantomData })
        }
    }

    /// Makes another weak handle to the same box.
    pub fn clone<T: Trace>(&self, heap: &mut Heap<T>) -> (w: Weak)
        requires
            old(heap)@.wf(),
            old(heap)@.has(self.id()),
            old(heap)@.held_weak(self.id()) >= 1,
            old(heap)@.boxes[self.id()].weak + 1 < usize::MAX,
        ensures
            w.id() == self.id(),
            final(heap)@ == old(heap)@.weak_cloned(self.id()),
            final(heap)@.wf(),
            final(heap)@.held_weak(self.id()) == old(heap)@.held_weak(self.id()) + 1,
    {
        let d = *heap.data(self.ptr);
        proof {
            lemma_weak_cloned_sound(heap@, self.id());
            lemma_covered_weak_cloned(heap@, self.id());
        }
        heap.set_data(
            self.ptr,
            CcBoxData { strong: d.strong, weak: d.weak + 1, buffered: d.buffered, color: d.color },
        );
        assert(heap@ == old(heap)@.weak_cloned(self.id()));
        Weak { ptr: self.ptr, here: PhantomData }
    }

    /// Gives the handle up. The weak count goes down by one; if it reaches
    /// zero, the storage of the box is released.
    pub fn drop<T: Trace>(self, heap: &mut Heap<T>)
        requires
            old(heap)@.wf(),
            old(heap)@.has(self.id()),
            old(heap)@.held_weak(self.id()) >= 1,
        ensures
            final(heap)@ == old(heap)@.weak_dropped(self.id()),
            final(heap)@.wf(),
            old(heap)@.boxes[self.id()].weak >= 1,
    {
        proof {
            let s = heap@;
            lemma_covered_weak_dropped(s, self.id());
            let wpend = seq![self.ptr];
            assert(wpend.drop_last() =~= Seq::<usize>::empty());
            assert forall|c: int| occ(wpend, c) == if c == self.id() {
                1nat
            } else {
                0nat
            } by {
                assert(occ(Seq::<usize>::empty(), c) == 0);
            }
            assert forall|c: int| occ(Seq::<usize>::empty(), c) == 0 by {}
            assert(release_inv(s, Seq::empty(), wpend));
            lemma_release_weak(s, Seq::empty(), wpend);
            lemma_release_inv_sound(s.weak_dropped(self.id()));
        }
        Weak::release(heap, self.ptr);
    }
}

/// A sound heap stays sound when a weak handle is made from one
/// that a user holds.
pub proof fn lemma_weak_cloned_sound<T: Trace>(s: HeapState<T>, i: int)
    requires
        s.sound(),
        s.has(i),
        s.boxes[i].weak + 1 < usize::MAX,
    ensures
        s.weak_cloned(i).sound(),
        s.weak_cloned(i).held_weak(i) == s.held_weak(i) + 1,
{
    let t = s.weak_cloned(i);
    lemma_same_graphs(s, t);
    assert forall|c: int| t.has(c) implies {
        &&& t.owned_strong(c) <= (#[trigger] t.boxes[c]).strong
        &&& t.owned_weak(c) + t.shared_weak(c) <= t.boxes[c].weak
        &&& t.boxes[c].strong < usize::MAX
        &&& t.boxes[c].weak < usize::MAX
    } by {
        assert(s.owned_strong(c) <= s.boxes[c].strong);
        assert(s.owned_weak(c) + s.shared_weak(c) <= s.boxes[c].weak);
    }
    assert(t.boxes_sound()) by {
        assert forall|j: int| t.has(j) implies {
            &&& ((#[trigger] t.boxes[j]).value.is_some() <==> t.boxes[j].strong > 0)
            &&& (t.boxes[j].color == Color::Black || t.boxes[j].color == Color::Purple)
            &&& (t.boxes[j].color == Color::Purple ==> t.boxes[j].buffered && t.boxes[j].strong > 0)
        } by {
            assert(s.boxes[j].value.is_some() <==> s.boxes[j].strong > 0);
        }
    }
    assert(t.roots_sound()) by {
        assert forall|j: int| t.has(j) implies ((#[trigger] t.boxes[j]).buffered <==> root_set(t.roots).contains(
            j,
        )) by {
            assert(s.boxes[j].buffered <==> root_set(s.roots).contains(j));
        }
    }
}

impl Trace for Cc {
    closed spec fn strong_refs(&self) -> Seq<usize> {
        seq![self.ptr]
    }

    closed spec fn weak_refs(&self) -> Seq<usize> {
        Seq::empty()
    }

    fn trace(&self, tracer: &mut Tracer) {
        tracer.visit_strong(self.ptr);
        proof {
            assert(old(tracer).strong().push(self.ptr) =~= old(tracer).strong() + seq![self.ptr]);
            assert(old(tracer).weak() + Seq::<usize>::empty() =~= old(tracer).weak());
        }
    }
}

impl Trace for Weak {
    closed spec fn strong_refs(&self) -> Seq<usize> {
        Seq::empty()
    }

    closed spec fn weak_refs(&self) -> Seq<usize> {
        seq![self.ptr]
    }

    fn trace(&self, tracer: &mut Tracer) {
        tracer.visit_weak(self.ptr);
        proof {
            assert(old(tracer).weak().push(self.ptr) =~= old(tracer).weak() + seq![self.ptr]);
            assert(old(tracer).strong() + Seq::<usize>::empty() =~= old(tracer).strong());
        }
    }
}

/// A strong handle owns itself and nothing else.
pub proof fn lemma_cc_refs(cc: Cc)
    ensures
        cc.strong_refs().len() == 1,
        cc.strong_refs()[0] as int == cc.id(),
        cc.weak_refs().len() == 0,
{
}

/// A weak handle owns itself and nothing else.
pub proof fn lemma_weak_refs(w: Weak)
    ensures
        w.weak_refs().len() == 1,
        w.weak_refs()[0] as int == w.id(),
        w.strong_refs().len() == 0,
{
}

} // verus!
