//! The heap: the boxes and the buffer of possible roots.
use crate::cc_box_ptr::CcBoxPtr;
use crate::state::{BoxState, HeapState};
use crate::trace::{Trace, Tracer};
use crate::CcBoxData;
use vstd::prelude::*;

verus! {

/// A box: a payload and its header.
pub struct CcBox<T> {
    pub value: Option<T>,
    pub data: CcBoxData,
}

impl<T> CcBox<T> {
    /// What the box is.
    pub open spec fn state(self) -> BoxState<T> {
        BoxState {
            strong: self.data.strong as nat,
            weak: self.data.weak as nat,
            color: self.data.color,
            buffered: self.data.buffered,
            value: self.value,
        }
    }
}

/// A box owns what its payload owns; a box whose payload is destroyed owns
/// nothing.
impl<T: Trace> Trace for CcBox<T> {
    open spec fn strong_refs(&self) -> Seq<usize> {
        self.value.strong_refs()
    }

    open spec fn weak_refs(&self) -> Seq<usize> {
        self.value.weak_refs()
    }

    fn trace(&self, tracer: &mut Tracer) {
        self.value.trace(tracer)
    }
}

impl<T: Trace> CcBoxPtr for CcBox<T> {
    open spec fn header(&self) -> CcBoxData {
        self.data
    }

    fn data(&self) -> (d: &CcBoxData) {
        &self.data
    }
}

/// A heap of boxes with its buffer of possible roots.
///
/// Boxes are named by their index. The storage of a box is never given to
/// another box, so an index names the same box for as long as the heap lives.
pub struct Heap<T> {
    boxes: Vec<CcBox<T>>,
    roots: Vec<usize>,
}

impl<T> View for Heap<T> {
    type V = HeapState<T>;

    closed spec fn view(&self) -> HeapState<T> {
        HeapState { boxes: Seq::new(self.boxes@.len(), |i: int| self.boxes@[i].state()), roots: self.roots@ }
    }
}

impl<T> HeapState<T> {
    /// The heap with box `i` replaced by `b`.
    pub open spec fn with_box(self, i: int, b: BoxState<T>) -> HeapState<T> {
        HeapState { boxes: self.boxes.update(i, b), roots: self.roots }
    }

    /// The heap with the header of box `i` replaced.
    pub open spec fn with_data(self, i: int, d: CcBoxData) -> HeapState<T> {
        self.with_box(
            i,
            BoxState {
                strong: d.strong as nat,
                weak: d.weak as nat,
                color: d.color,
                buffered: d.buffered,
                value: self.boxes[i].value,
            },
        )
    }

    /// The heap with the payload of box `i` replaced.
    pub open spec fn with_value(self, i: int, v: Option<T>) -> HeapState<T> {
        self.with_box(i, BoxState { value: v, ..self.boxes[i] })
    }

    /// The heap with another buffer.
    pub open spec fn with_roots(self, roots: Seq<usize>) -> HeapState<T> {
        HeapState { boxes: self.boxes, roots }
    }

    /// The heap with one more box.
    pub open spec fn with_new_box(self, b: BoxState<T>) -> HeapState<T> {
        HeapState { boxes: self.boxes.push(b), roots: self.roots }
    }
}

impl<T: Trace> Heap<T> {
    /// A heap without boxes.
    pub fn new() -> (h: Heap<T>)
        ensures
            h@.boxes.len() == 0,
            h@.roots.len() == 0,
            h@.wf(),
    {
        let h = Heap { boxes: Vec::new(), roots: Vec::new() };
        proof {
            assert(h@.boxes =~= Seq::empty());
        }
        h
    }

    /// The number of boxes ever made in this heap.
    pub fn len(&self) -> (n: usize)
        ensures
            n == self@.boxes.len(),
    {
        self.boxes.len()
    }

    /// The header of box `i`.
    pub fn data(&self, i: usize) -> (d: &CcBoxData)
        requires
            self@.has(i as int),
        ensures
            d.strong == self@.boxes[i as int].strong,
            d.weak == self@.boxes[i as int].weak,
            d.color == self@.boxes[i as int].color,
            d.buffered == self@.boxes[i as int].buffered,
    {
        self.boxes[i].data()
    }

    /// Whether the payload of box `i` has not been destroyed.
    pub fn is_live(&self, i: usize) -> (b: bool)
        requires
            self@.has(i as int),
        ensures
            b == self@.live(i as int),
    {
        self.boxes[i].value.is_some()
    }

    /// The payload of box `i`, unless it has been destroyed.
    pub fn value(&self, i: usize) -> (v: Option<&T>)
        requires
            self@.has(i as int),
        ensures
            v.is_some() == self@.live(i as int),
            v.is_some() ==> Some(*v.unwrap()) == self@.boxes[i as int].value,
    {
        self.boxes[i].value.as_ref()
    }

    /// Whether the storage of box `i` has not been released.
    pub fn is_allocated(&self, i: usize) -> (b: bool)
        requires
            self@.has(i as int),
        ensures
            b == self@.allocated(i as int),
    {
        self.boxes[i].data.weak > 0
    }

    /// Replaces the header of box `i`.
    pub(crate) fn set_data(&mut self, i: usize, d: CcBoxData)
        requires
            old(self)@.has(i as int),
        ensures
            final(self)@ == old(self)@.with_data(i as int, d),
    {
        self.boxes[i].data = d;
        proof {
            assert(self@.boxes =~= old(self)@.with_data(i as int, d).boxes);
        }
    }

    /// Takes the payload out of box `i`.
    pub(crate) fn take_value(&mut self, i: usize) -> (v: Option<T>)
        requires
            old(self)@.has(i as int),
        ensures
            v == old(self)@.boxes[i as int].value,
            final(self)@ == old(self)@.with_value(i as int, None),
    {
        let v = self.boxes[i].value.take();
        proof {
            assert(self@.boxes =~= old(self)@.with_value(i as int, None).boxes);
        }
        v
    }

    /// The payload of box `i`.
    pub(crate) fn value_ref(&self, i: usize) -> (v: &T)
        requires
            self@.live(i as int),
        ensures
            Some(*v) == self@.boxes[i as int].value,
    {
        match &self.boxes[i].value {
            Some(v) => v,
            None => unreached(),
        }
    }

    /// The payload of box `i`, to be changed in place.
    pub(crate) fn value_mut(&mut self, i: usize) -> (v: &mut T)
        requires
            old(self)@.live(i as int),
        ensures
            Some(*v) == old(self)@.boxes[i as int].value,
            final(self)@ == old(self)@.with_value(i as int, Some(*final(v))),
    {
        let ghost s = self@;
        let r = match &mut self.boxes[i].value {
            Some(v) => v,
            None => unreached(),
        };
        proof {
            assert(after_borrow(self)@.boxes =~= s.with_value(i as int, Some(*final(r))).boxes);
        }
        r
    }

    /// Adds a box with the given payload and header, and returns its index.
    pub(crate) fn push_box(&mut self, value: T, d: CcBoxData) -> (i: usize)
        ensures
            i == old(self)@.boxes.len(),
            final(self)@ == old(self)@.with_new_box(
                (CcBox { value: Some(value), data: d }).state(),
            ),
    {
        let i = self.boxes.len();
        self.boxes.push(CcBox { value: Some(value), data: d });
        proof {
            assert(self@.boxes =~= old(self)@.boxes.push((CcBox { value: Some(value), data: d }).state()));
        }
        i
    }

    /// Reports the handles that the payload of box `i` owns.
    pub(crate) fn trace_box(&self, i: usize, tracer: &mut Tracer)
        requires
            self@.has(i as int),
        ensures
            final(tracer).strong() == old(tracer).strong() + self@.strong_refs(i as int),
            final(tracer).weak() == old(tracer).weak() + self@.weak_refs(i as int),
    {
        self.boxes[i].trace(tracer)
    }

    /// The number of boxes in the buffer.
    pub(crate) fn roots_len(&self) -> (n: usize)
        ensures
            n == self@.roots.len(),
    {
        self.roots.len()
    }

    /// The box at place `k` of the buffer.
    pub(crate) fn root_at(&self, k: usize) -> (r: usize)
        requires
            k < self@.roots.len(),
        ensures
            r == self@.roots[k as int],
    {
        self.roots[k]
    }

    /// Appends box `i` to the buffer.
    pub(crate) fn push_root(&mut self, i: usize)
        ensures
            final(self)@ == old(self)@.with_roots(old(self)@.roots.push(i)),
    {
        self.roots.push(i);
        proof {
            assert(self@.boxes =~= old(self)@.boxes);
        }
    }

    /// Empties the buffer and returns what it held.
    pub(crate) fn take_roots(&mut self) -> (r: Vec<usize>)
        ensures
            r@ == old(self)@.roots,
            final(self)@ == old(self)@.with_roots(Seq::empty()),
    {
        let mut r: Vec<usize> = Vec::new();
        std::mem::swap(&mut self.roots, &mut r);
        proof {
            assert(self@.boxes =~= old(self)@.boxes);
            assert(self@.roots =~= Seq::<usize>::empty());
        }
        r
    }

    /// Replaces the buffer.
    pub(crate) fn set_roots(&mut self, r: Vec<usize>)
        ensures
            final(self)@ == old(self)@.with_roots(r@),
    {
        self.roots = r;
        proof {
            assert(self@.boxes =~= old(self)@.boxes);
        }
    }
}

} // verus!
