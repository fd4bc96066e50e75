//! What the collector needs of a box, whatever its payload.
use crate::heap::Heap;
use crate::state::BoxState;
use crate::trace::Trace;
use crate::CcBoxData;
use vstd::prelude::*;

verus! {

/// What the collector can do with a box whatever the type of its payload:
/// read its header, and trace its payload.
pub trait CcBoxPtr: Trace {
    /// The header of the box.
    spec fn header(&self) -> CcBoxData;

    /// The header of the box.
    fn data(&self) -> (d: &CcBoxData)
        ensures
            *d == self.header(),
    ;
}

/// Releases the storage of box `i`, whose payload has been destroyed and
/// which at most one weak handle still holds. A box without storage has a
/// weak count of zero.
pub(crate) fn deallocate<T: Trace>(heap: &mut Heap<T>, i: usize)
    requires
        old(heap)@.has(i as int),
        old(heap)@.boxes[i as int].strong == 0,
        old(heap)@.boxes[i as int].weak <= 1,
    ensures
        final(heap)@ == old(heap)@.with_box(i as int, BoxState { weak: 0, ..old(heap)@.boxes[i as int] }),
{
    let d = *heap.data(i);
    heap.set_data(i, CcBoxData { strong: d.strong, weak: 0, buffered: d.buffered, color: d.color });
    assert(heap@ == old(heap)@.with_box(i as int, BoxState { weak: 0, ..old(heap)@.boxes[i as int] }));
}

/// Releases the storage of box `i` if nothing else holds it. The payload of
/// the box must have been destroyed, and the box must not be in the buffer.
///
/// The box gives up the weak handle that its strong handles shared. If that
/// was the last weak handle, the weak count is zero and the box is gone.
pub fn free<T: Trace>(heap: &mut Heap<T>, i: usize)
    requires
        old(heap)@.has(i as int),
        old(heap)@.boxes[i as int].strong == 0,
        !old(heap)@.boxes[i as int].buffered,
        old(heap)@.boxes[i as int].weak > 0,
    ensures
        final(heap)@ == old(heap)@.with_box(
            i as int,
            BoxState { weak: (old(heap)@.boxes[i as int].weak - 1) as nat, ..old(heap)@.boxes[i as int] },
        ),
{
    let d = *heap.data(i);
    heap.set_data(i, CcBoxData { strong: d.strong, weak: d.weak - 1, buffered: d.buffered, color: d.color });
    assert(heap@ == old(heap)@.with_box(
        i as int,
        BoxState { weak: (old(heap)@.boxes[i as int].weak - 1) as nat, ..old(heap)@.boxes[i as int] },
    ));
    if d.weak - 1 == 0 {
        let ghost s = heap@;
        deallocate(heap, i);
        assert(heap@ == s) by {
            assert(heap@.boxes =~= s.boxes);
        }
    }
}

} // verus!
