//! Cycle detection and collection.
use crate::cc::Weak;
use crate::cc_box_ptr::{deallocate, free};
use crate::cover::lemma_covered_collected;
use crate::graph::{lemma_occ_add, lemma_occ_at, occ, reachable};
use crate::heap::Heap;
use crate::laws::{
    buffered_set, lemma_buffer_count, lemma_collect_exact, lemma_collect_keeps_held,
    lemma_collect_nothing_buffered,
    lemma_collected_sound,
};
use crate::mark::{
    lemma_mark_done, lemma_mark_follow, lemma_mark_frame, lemma_mark_init, lemma_mark_start,
    lemma_mark_untouched, mark_inv, marked_box, marked_post,
};
use crate::scan::{
    lemma_scan_done, lemma_scan_init, lemma_scan_queue, lemma_scan_restore, lemma_scan_visit, restored_box,
    scan_inv, scanned_post,
};
use crate::state::{
    distinct, lemma_distinct_push, lemma_root_set_at, lemma_root_set_empty, lemma_root_set_push, root_set,
    BoxState, HeapState,
};
use crate::sweep::{
    destroy_inv, gather_inv, lemma_destroy_close, lemma_destroy_init, lemma_destroy_open,
    lemma_destroy_weak_drop, lemma_gather_init, lemma_gather_next, lemma_gather_visit, lemma_unpin_done,
    lemma_unpin_init, lemma_unpin_next, pinned_box, unpin_inv,
};
use crate::trace::{Trace, Tracer};
use crate::{CcBoxData, Color};
use vstd::prelude::*;
use vstd::set_lib::{lemma_int_range, set_int_range};

verus! {

/// Walks from candidate `r` along the strong handles that payloads own,
/// colors every box on the way gray and takes one from its strong count for
/// each handle that leads to it.
fn mark_gray<T: Trace>(heap: &mut Heap<T>, r: usize, Ghost(s0): Ghost<HeapState<T>>, Ghost(kept): Ghost<Set<int>>)
    requires
        s0.sound(),
        mark_inv(s0, old(heap)@, Seq::empty(), kept),
        s0.candidates().contains(r as int),
        old(heap)@.boxes[r as int].color != Color::Gray,
    ensures
        mark_inv(s0, final(heap)@, Seq::empty(), kept.insert(r as int)),
        final(heap)@.boxes[r as int].color == Color::Gray,
        final(heap)@.roots == old(heap)@.roots,
        forall|i: int|
            s0.has(i) ==> {
                &&& (#[trigger] final(heap)@.boxes[i]).weak == old(heap)@.boxes[i].weak
                &&& final(heap)@.boxes[i].buffered == old(heap)@.boxes[i].buffered
                &&& (old(heap)@.boxes[i].color == Color::Gray ==> final(heap)@.boxes[i].color == Color::Gray)
            },
{
    let ghost kept2 = kept.insert(r as int);
    let mut pend = Tracer::new();
    let d = *heap.data(r);
    proof {
        lemma_mark_start(s0, heap@, kept, r as int);
    }
    heap.set_data(r, CcBoxData { strong: d.strong, weak: d.weak, buffered: d.buffered, color: Color::Gray });
    assert(heap@ == old(heap)@.with_box(r as int, BoxState { color: Color::Gray, ..old(heap)@.boxes[r as int] }));
    heap.trace_box(r, &mut pend);
    assert(pend.strong() =~= s0.strong_refs(r as int));
    let ghost mut todo: Set<int> = set_int_range(0, s0.boxes.len() as int);
    proof {
        lemma_int_range(0, s0.boxes.len() as int);
    }
    loop
        invariant
            s0.sound(),
            mark_inv(s0, heap@, pend.strong(), kept2),
            s0.has(r as int),
            heap@.boxes[r as int].color == Color::Gray,
            heap@.roots == old(heap)@.roots,
            forall|i: int|
                s0.has(i) ==> {
                    &&& (#[trigger] heap@.boxes[i]).weak == old(heap)@.boxes[i].weak
                    &&& heap@.boxes[i].buffered == old(heap)@.boxes[i].buffered
                    &&& (old(heap)@.boxes[i].color == Color::Gray ==> heap@.boxes[i].color == Color::Gray)
                },
            todo.finite(),
            forall|i: int| s0.has(i) && (#[trigger] heap@.boxes[i]).color != Color::Gray ==> todo.contains(i),
        ensures
            pend.strong().len() == 0,
        decreases todo.len(), pend.strong().len(),
    {
        let ghost s = heap@;
        let ghost p = pend.strong();
        let next = pend.pop_strong();
        if next.is_none() {
            break;
        }
        let c = next.unwrap();
        assert(c == p[p.len() - 1]);
        proof {
            lemma_mark_follow(s0, s, p, kept2);
        }
        let d = *heap.data(c);
        let was_gray = d.color == Color::Gray;
        heap.set_data(c, CcBoxData { strong: d.strong - 1, weak: d.weak, buffered: d.buffered, color: Color::Gray });
        assert(heap@ == s.with_box(c as int, marked_box(s.boxes[c as int])));
        if !was_gray {
            heap.trace_box(c, &mut pend);
            proof {
                assert(heap@.strong_refs(c as int) == s0.strong_refs(c as int));
                todo = todo.remove(c as int);
            }
        }
    }
}

/// The first phase of a collection.
///
/// Every box of the buffer that is still purple and still has a strong
/// handle is a candidate: a walk starts from it, unless an earlier walk has
/// reached it, and it stays in the buffer. Every other box leaves the buffer,
/// and its storage is released if it only waited for that.
pub(crate) fn mark_roots<T: Trace>(heap: &mut Heap<T>)
    requires
        old(heap)@.sound(),
    ensures
        marked_post(old(heap)@, final(heap)@),
{
    let ghost s0 = heap@;
    let ghost adj = s0.strong_adj();
    let old_roots = heap.take_roots();
    let mut new_roots: Vec<usize> = Vec::new();
    proof {
        lemma_mark_init(s0);
        lemma_mark_frame(s0, s0, heap@, Seq::empty(), Set::empty());
        lemma_root_set_empty();
    }
    let mut k: usize = 0;
    while k < old_roots.len()
        invariant
            s0.sound(),
            old_roots@ == s0.roots,
            0 <= k <= old_roots.len(),
            mark_inv(s0, heap@, Seq::empty(), root_set(new_roots@)),
            heap@.roots.len() == 0,
            distinct(new_roots@),
            forall|i: int| root_set(new_roots@).contains(i) ==> root_set(s0.roots.take(k as int)).contains(i),
            forall|k2: int|
                0 <= k2 < k ==> {
                    let r = (#[trigger] s0.roots[k2]) as int;
                    &&& (s0.candidates().contains(r) ==> heap@.boxes[r].color == Color::Gray)
                    &&& heap@.boxes[r].weak == s0.boxes[r].weak - if s0.deferred(r) {
                        1int
                    } else {
                        0int
                    }
                    &&& (heap@.boxes[r].buffered <==> root_set(new_roots@).contains(r))
                },
            forall|k2: int|
                k <= k2 < s0.roots.len() ==> {
                    let r = (#[trigger] s0.roots[k2]) as int;
                    &&& heap@.boxes[r].weak == s0.boxes[r].weak
                    &&& heap@.boxes[r].buffered
                },
            forall|i: int|
                s0.has(i) && !s0.boxes[i].buffered ==> (#[trigger] heap@.boxes[i]).weak == s0.boxes[i].weak
                    && !heap@.boxes[i].buffered,
        decreases old_roots.len() - k,
    {
        let r = old_roots[k];
        let ghost s = heap@;
        let ghost kept = root_set(new_roots@);
        let ghost pr = new_roots@;
        proof {
            assert(s0.roots[k as int] < s0.boxes.len());
            lemma_root_set_at(s0.roots, k as int);
            assert(s0.boxes[r as int].buffered);
            assert forall|k2: int| 0 <= k2 < s0.roots.len() && k2 != k implies (#[trigger] s0.roots[k2]) != r by {
                if k2 < k {
                    assert(s0.roots[k2] != s0.roots[k as int]);
                } else {
                    assert(s0.roots[k as int] != s0.roots[k2]);
                }
            }
            if kept.contains(r as int) {
                let t = s0.roots.take(k as int);
                let k2 = choose|k2: int| 0 <= k2 < t.len() && t[k2] as int == r as int;
                assert(s0.roots[k2] == t[k2]);
            }
            assert(s0.roots.take(k + 1) =~= s0.roots.take(k as int).push(r));
            lemma_root_set_push(s0.roots.take(k as int), r);
        }
        let d = *heap.data(r);
        if d.color == Color::Purple && d.strong > 0 {
            proof {
                lemma_mark_untouched(s0, s, kept, r as int);
                assert(s0.candidates().contains(r as int));
            }
            mark_gray(heap, r, Ghost(s0), Ghost(kept));
            new_roots.push(r);
            proof {
                lemma_root_set_push(pr, r);
                lemma_distinct_push(pr, r);
                assert forall|k2: int| 0 <= k2 < k + 1 implies {
                    let q = (#[trigger] s0.roots[k2]) as int;
                    &&& (s0.candidates().contains(q) ==> heap@.boxes[q].color == Color::Gray)
                    &&& heap@.boxes[q].weak == s0.boxes[q].weak - if s0.deferred(q) {
                        1int
                    } else {
                        0int
                    }
                    &&& (heap@.boxes[q].buffered <==> root_set(new_roots@).contains(q))
                } by {
                    let q = s0.roots[k2] as int;
                    assert(s0.roots[k2] < s0.boxes.len());
                    if k2 < k {
                        assert(s0.roots[k2] != r);
                    }
                }
            }
        } else {
            proof {
                if s.boxes[r as int].color != Color::Gray {
                    lemma_mark_untouched(s0, s, kept, r as int);
                }
            }
            heap.set_data(r, CcBoxData { strong: d.strong, weak: d.weak, buffered: false, color: d.color });
            if d.color == Color::Black && d.strong == 0 {
                assert(s0.deferred(r as int));
                assert(s0.shared_weak(r as int) == 1);
                free(heap, r);
            }
            proof {
                lemma_mark_frame(s0, s, heap@, Seq::empty(), kept);
                assert forall|k2: int| 0 <= k2 < k + 1 implies {
                    let q = (#[trigger] s0.roots[k2]) as int;
                    &&& (s0.candidates().contains(q) ==> heap@.boxes[q].color == Color::Gray)
                    &&& heap@.boxes[q].weak == s0.boxes[q].weak - if s0.deferred(q) {
                        1int
                    } else {
                        0int
                    }
                    &&& (heap@.boxes[q].buffered <==> root_set(new_roots@).contains(q))
                } by {
                    let q = s0.roots[k2] as int;
                    assert(s0.roots[k2] < s0.boxes.len());
                    if k2 < k {
                        assert(s0.roots[k2] != r);
                    }
                }
            }
        }
        k += 1;
    }
    let ghost kept = root_set(new_roots@);
    proof {
        assert forall|r: int| s0.candidates().contains(r) implies heap@.boxes[r].color == Color::Gray by {
            let k2 = choose|k2: int| 0 <= k2 < s0.roots.len() && s0.roots[k2] as int == r;
            assert(s0.roots[k2] as int == r);
        }
        lemma_mark_done(s0, heap@, kept);
    }
    let ghost s = heap@;
    heap.set_roots(new_roots);
    proof {
        let s1 = heap@;
        assert(s0.roots.take(k as int) =~= s0.roots);
        assert forall|i: int| s0.has(i) implies {
            &&& (#[trigger] s1.boxes[i]).value == s0.boxes[i].value
            &&& s1.boxes[i].color == if s0.marked().contains(i) {
                Color::Gray
            } else {
                Color::Black
            }
            &&& s1.boxes[i].strong == s0.trial_strong(i)
            &&& s1.boxes[i].weak == s0.boxes[i].weak - if s0.deferred(i) {
                1int
            } else {
                0int
            }
            &&& (s1.boxes[i].buffered <==> root_set(s1.roots).contains(i))
        } by {
            assert(s.boxes[i].value == s0.boxes[i].value);
            if s0.boxes[i].buffered {
                let k2 = choose|k2: int| 0 <= k2 < s0.roots.len() && s0.roots[k2] as int == i;
                assert(s0.roots[k2] as int == i);
            }
        }
        assert forall|j: int| 0 <= j < s1.roots.len() implies (#[trigger] s1.roots[j]) < s0.boxes.len()
            && s0.candidates().contains(s1.roots[j] as int) by {
            lemma_root_set_at(s1.roots, j);
        }
        assert(s1.boxes.len() == s0.boxes.len());
        assert(distinct(s1.roots));
        assert forall|i: int| s0.marked().contains(i) implies reachable(adj, root_set(s1.roots), i) by {
            assert(reachable(s0.strong_adj(), s0.candidates(), i));
        }
    }
}

/// Scans from box `r` until nothing is put aside.
fn scan<T: Trace>(heap: &mut Heap<T>, r: usize, Ghost(s0): Ghost<HeapState<T>>, Ghost(s1): Ghost<HeapState<T>>)
    requires
        s0.sound(),
        marked_post(s0, s1),
        scan_inv(s0, s1, old(heap)@, Seq::empty(), Seq::empty()),
        s0.has(r as int),
    ensures
        scan_inv(s0, s1, final(heap)@, Seq::empty(), Seq::empty()),
        final(heap)@.boxes[r as int].color != Color::Gray,
        final(heap)@.roots == old(heap)@.roots,
        forall|i: int|
            s0.has(i) ==> {
                &&& (#[trigger] final(heap)@.boxes[i]).weak == old(heap)@.boxes[i].weak
                &&& final(heap)@.boxes[i].buffered == old(heap)@.boxes[i].buffered
                &&& (old(heap)@.boxes[i].color != Color::Gray ==> final(heap)@.boxes[i].color != Color::Gray)
            },
{
    let mut scan = Tracer::new();
    let mut restore = Tracer::new();
    scan.visit_strong(r);
    let ghost mut grays: Set<int> = set_int_range(0, s0.boxes.len() as int);
    let ghost mut dark: Set<int> = set_int_range(0, s0.boxes.len() as int);
    proof {
        lemma_int_range(0, s0.boxes.len() as int);
        assert(scan.strong() =~= seq![r]);
        assert(scan.strong()[0] == r);
        assert(occ(scan.strong(), r as int) > 0) by {
            lemma_occ_at(scan.strong(), 0);
        }
        lemma_scan_queue(s0, s1, heap@, r);
    }
    loop
        invariant
            s0.sound(),
            marked_post(s0, s1),
            scan_inv(s0, s1, heap@, scan.strong(), restore.strong()),
            s0.has(r as int),
            heap@.boxes[r as int].color != Color::Gray || occ(scan.strong(), r as int) > 0,
            heap@.roots == old(heap)@.roots,
            forall|i: int|
                s0.has(i) ==> {
                    &&& (#[trigger] heap@.boxes[i]).weak == old(heap)@.boxes[i].weak
                    &&& heap@.boxes[i].buffered == old(heap)@.boxes[i].buffered
                    &&& (old(heap)@.boxes[i].color != Color::Gray ==> heap@.boxes[i].color != Color::Gray)
                },
            grays.finite(),
            dark.finite(),
            forall|i: int| s0.has(i) && (#[trigger] heap@.boxes[i]).color == Color::Gray ==> grays.contains(i),
            forall|i: int| s0.has(i) && (#[trigger] heap@.boxes[i]).color != Color::Black ==> dark.contains(i),
        ensures
            scan.strong().len() == 0,
            restore.strong().len() == 0,
        decreases grays.len() + dark.len(), scan.strong().len() + restore.strong().len(),
    {
        let ghost s = heap@;
        let ghost ps = scan.strong();
        let ghost pr = restore.strong();
        let next = restore.pop_strong();
        if next.is_some() {
            let c = next.unwrap();
            assert(c == pr[pr.len() - 1]);
            proof {
                lemma_scan_restore(s0, s1, s, ps, pr);
            }
            let d = *heap.data(c);
            let was_black = d.color == Color::Black;
            heap.set_data(
                c,
                CcBoxData { strong: d.strong + 1, weak: d.weak, buffered: d.buffered, color: Color::Black },
            );
            assert(heap@ == s.with_box(c as int, restored_box(s.boxes[c as int])));
            if !was_black {
                heap.trace_box(c, &mut restore);
                proof {
                    assert(heap@.strong_refs(c as int) == s0.strong_refs(c as int));
                    dark = dark.remove(c as int);
                }
            }
        } else {
            let next = scan.pop_strong();
            if next.is_none() {
                break;
            }
            let x = next.unwrap();
            assert(x == ps[ps.len() - 1]);
            proof {
                lemma_scan_visit(s0, s1, s, ps, pr);
                if x != r {
                    assert(occ(ps.drop_last(), r as int) == occ(ps, r as int));
                }
            }
            let d = *heap.data(x);
            if d.color == Color::Gray {
                if d.strong > 0 {
                    heap.set_data(
                        x,
                        CcBoxData { strong: d.strong, weak: d.weak, buffered: d.buffered, color: Color::Black },
                    );
                    assert(heap@ == s.with_box(x as int, BoxState { color: Color::Black, ..s.boxes[x as int] }));
                    heap.trace_box(x, &mut restore);
                    proof {
                        assert(heap@.strong_refs(x as int) == s0.strong_refs(x as int));
                        grays = grays.remove(x as int);
                    }
                } else {
                    heap.set_data(
                        x,
                        CcBoxData { strong: d.strong, weak: d.weak, buffered: d.buffered, color: Color::White },
                    );
                    assert(heap@ == s.with_box(x as int, BoxState { color: Color::White, ..s.boxes[x as int] }));
                    heap.trace_box(x, &mut scan);
                    proof {
                        assert(heap@.strong_refs(x as int) == s0.strong_refs(x as int));
                        grays = grays.remove(x as int);
                        lemma_occ_add(ps.drop_last(), s0.strong_refs(x as int), r as int);
                    }
                }
            }
        }
    }
    proof {
        assert(scan.strong() =~= Seq::<usize>::empty());
        assert(restore.strong() =~= Seq::<usize>::empty());
        assert(occ(Seq::<usize>::empty(), r as int) == 0);
    }
}

/// The second phase of a collection.
///
/// Scans from every box of the buffer. Afterwards the marked boxes that
/// something other than a marked box keeps alive are black again, with their
/// counts as they were without the handles of the garbage, and the garbage is
/// white.
pub(crate) fn scan_roots<T: Trace>(heap: &mut Heap<T>, Ghost(s0): Ghost<HeapState<T>>)
    requires
        s0.sound(),
        marked_post(s0, old(heap)@),
    ensures
        scanned_post(s0, final(heap)@),
{
    let ghost s1 = heap@;
    proof {
        lemma_scan_init(s0, s1);
    }
    let n = heap.roots_len();
    let mut k: usize = 0;
    while k < n
        invariant
            s0.sound(),
            marked_post(s0, s1),
            scan_inv(s0, s1, heap@, Seq::empty(), Seq::empty()),
            n == s1.roots.len(),
            0 <= k <= n,
            heap@.roots == s1.roots,
            forall|i: int|
                s0.has(i) ==> (#[trigger] heap@.boxes[i]).weak == s1.boxes[i].weak && heap@.boxes[i].buffered
                    == s1.boxes[i].buffered,
            forall|k2: int| 0 <= k2 < k ==> heap@.boxes[(#[trigger] s1.roots[k2]) as int].color != Color::Gray,
        decreases n - k,
    {
        let r = heap.root_at(k);
        assert(s1.roots[k as int] < s0.boxes.len());
        let ghost s = heap@;
        scan(heap, r, Ghost(s0), Ghost(s1));
        proof {
            assert forall|k2: int| 0 <= k2 < k + 1 implies heap@.boxes[(#[trigger] s1.roots[k2]) as int].color
                != Color::Gray by {
                assert(s1.roots[k2] < s0.boxes.len());
                if k2 < k {
                    assert(s.boxes[s1.roots[k2] as int].color != Color::Gray);
                }
            }
        }
        k += 1;
    }
    proof {
        lemma_scan_done(s0, s1, heap@);
        let s2 = heap@;
        assert forall|i: int| s0.has(i) implies {
            &&& (#[trigger] s2.boxes[i]).value == s0.boxes[i].value
            &&& s2.boxes[i].weak == s0.boxes[i].weak - if s0.deferred(i) {
                1int
            } else {
                0int
            }
            &&& (s2.boxes[i].buffered <==> root_set(s2.roots).contains(i))
        } by {
            assert(s1.boxes[i].value == s0.boxes[i].value);
        }
    }
}

/// Gathers the white boxes that can be reached from what is put aside in
/// `pend` without passing a box that is still in the buffer. Each gathered
/// box turns black and gets one more weak handle, which pins its storage.
fn collect_white<T: Trace>(
    heap: &mut Heap<T>,
    pend: &mut Tracer,
    white: &mut Vec<usize>,
    Ghost(s0): Ghost<HeapState<T>>,
    Ghost(roots): Ghost<Seq<usize>>,
    Ghost(k): Ghost<int>,
)
    requires
        s0.sound(),
        gather_inv(s0, old(heap)@, roots, k, old(pend).strong(), old(white)@),
        distinct(roots),
        forall|k2: int| 0 <= k2 < roots.len() ==> (#[trigger] roots[k2]) < s0.boxes.len(),
    ensures
        gather_inv(s0, final(heap)@, roots, k, Seq::empty(), final(white)@),
        final(pend).strong().len() == 0,
{
    let ghost mut pale: Set<int> = set_int_range(0, s0.boxes.len() as int);
    proof {
        lemma_int_range(0, s0.boxes.len() as int);
    }
    loop
        invariant
            s0.sound(),
            gather_inv(s0, heap@, roots, k, pend.strong(), white@),
            distinct(roots),
            forall|k2: int| 0 <= k2 < roots.len() ==> (#[trigger] roots[k2]) < s0.boxes.len(),
            pale.finite(),
            forall|i: int| s0.has(i) && (#[trigger] heap@.boxes[i]).color == Color::White ==> pale.contains(i),
        ensures
            pend.strong().len() == 0,
        decreases pale.len(), pend.strong().len(),
    {
        let ghost s = heap@;
        let ghost p = pend.strong();
        let next = pend.pop_strong();
        if next.is_none() {
            break;
        }
        let c = next.unwrap();
        assert(c == p[p.len() - 1]);
        proof {
            lemma_gather_visit(s0, s, roots, k, p, white@);
        }
        let d = *heap.data(c);
        if d.color == Color::White && !d.buffered {
            heap.set_data(
                c,
                CcBoxData { strong: d.strong, weak: d.weak + 1, buffered: d.buffered, color: Color::Black },
            );
            assert(heap@ == s.with_box(c as int, pinned_box(s.boxes[c as int])));
            heap.trace_box(c, pend);
            white.push(c);
            proof {
                assert(heap@.strong_refs(c as int) == s0.strong_refs(c as int));
                pale = pale.remove(c as int);
            }
        }
    }
    proof {
        assert(pend.strong() =~= Seq::<usize>::empty());
    }
}

/// The third phase of a collection.
///
/// Empties the buffer and gathers the white boxes. Then the payload of each
/// gathered box is destroyed: the weak handles that it owns are given up,
/// and so is the weak handle that the strong handles of the box shared. The
/// strong handles that it owns are already left out of the counts. At last
/// the storage of each gathered box is released, unless a weak handle still
/// holds it.
pub(crate) fn collect_roots<T: Trace>(heap: &mut Heap<T>, Ghost(s0): Ghost<HeapState<T>>)
    requires
        s0.sound(),
        scanned_post(s0, old(heap)@),
    ensures
        final(heap)@ == s0.collected(),
{
    let ghost s2 = heap@;
    let roots = heap.take_roots();
    let mut white: Vec<usize> = Vec::new();
    let mut pend = Tracer::new();
    proof {
        lemma_gather_init(s0, s2);
    }
    let mut k: usize = 0;
    while k < roots.len()
        invariant
            s0.sound(),
            scanned_post(s0, s2),
            roots@ == s2.roots,
            0 <= k <= roots.len(),
            gather_inv(s0, heap@, roots@, k as int, Seq::empty(), white@),
            pend.strong().len() == 0,
        decreases roots.len() - k,
    {
        let r = roots[k];
        let ghost s = heap@;
        assert(s2.roots[k as int] < s0.boxes.len());
        proof {
            lemma_gather_next(s0, s, roots@, k as int, white@);
        }
        let d = *heap.data(r);
        heap.set_data(r, CcBoxData { strong: d.strong, weak: d.weak, buffered: false, color: d.color });
        assert(heap@ == s.with_box(r as int, BoxState { buffered: false, ..s.boxes[r as int] }));
        pend.visit_strong(r);
        assert(pend.strong() =~= seq![r]);
        collect_white(heap, &mut pend, &mut white, Ghost(s0), Ghost(roots@), Ghost(k + 1));
        k += 1;
    }
    proof {
        lemma_destroy_init(s0, s2, heap@, white@);
    }
    // Destroy the payloads. The pins keep every gathered box allocated
    // until all of them are destroyed.
    let mut j: usize = 0;
    while j < white.len()
        invariant
            s0.sound(),
            0 <= j <= white.len(),
            destroy_inv(s0, heap@, white@, j as int, false, Seq::empty()),
        decreases white.len() - j,
    {
        let x = white[j];
        let ghost s = heap@;
        proof {
            lemma_destroy_open(s0, s, white@, j as int);
        }
        let payload = heap.take_value(x);
        assert(heap@ == s.with_box(x as int, BoxState { value: None, ..s.boxes[x as int] }));
        let mut owned = Tracer::new();
        match &payload {
            Some(v) => {
                v.trace(&mut owned);
            },
            None => {},
        }
        assert(owned.weak() =~= s0.weak_refs(x as int));
        loop
            invariant
                s0.sound(),
                j < white.len(),
                destroy_inv(s0, heap@, white@, j as int, true, owned.weak()),
            ensures
                owned.weak().len() == 0,
            decreases owned.weak().len(),
        {
            let ghost t = heap@;
            let ghost p = owned.weak();
            let next = owned.pop_weak();
            if next.is_none() {
                break;
            }
            let w = next.unwrap();
            assert(w == p[p.len() - 1]);
            proof {
                lemma_destroy_weak_drop(s0, t, white@, j as int, p);
            }
            Weak::release(heap, w);
        }
        proof {
            assert(owned.weak() =~= Seq::<usize>::empty());
            lemma_destroy_close(s0, heap@, white@, j as int);
        }
        free(heap, x);
        j += 1;
    }
    proof {
        lemma_unpin_init(s0, heap@, white@);
    }
    // Take the pins off, and release the storage of the boxes that no weak
    // handle holds.
    let mut m: usize = 0;
    while m < white.len()
        invariant
            s0.sound(),
            0 <= m <= white.len(),
            unpin_inv(s0, heap@, white@, m as int),
        decreases white.len() - m,
    {
        let x = white[m];
        let ghost s = heap@;
        proof {
            lemma_unpin_next(s0, s, white@, m as int);
        }
        let d = *heap.data(x);
        if d.weak == 1 {
            deallocate(heap, x);
        } else {
            heap.set_data(x, CcBoxData { strong: d.strong, weak: d.weak - 1, buffered: d.buffered, color: d.color });
        }
        assert(heap@ == s.with_box(
            x as int,
            BoxState { weak: (s.boxes[x as int].weak - 1) as nat, ..s.boxes[x as int] },
        ));
        m += 1;
    }
    proof {
        lemma_unpin_done(s0, heap@, white@);
    }
}

/// Collects the cycles of boxes that nothing but themselves keeps alive.
///
/// The collection runs in three phases over the buffer of possible roots.
/// The mark phase walks from each candidate, a box of the buffer that is
/// still purple and has a strong handle, and takes from the counts the
/// handles that the payloads of the boxes it reaches own. The scan phase
/// finds, among the reached boxes, those that still have a strong handle and
/// all that these reach, and gives them their counts back. The collect phase
/// destroys the others.
///
/// Afterwards the heap is [`HeapState::collected`]: the garbage is destroyed,
/// every other payload is as it was, every box is black and the buffer is
/// empty. The garbage is what no user can reach: a payload lives on exactly
/// if it can be reached from a box that a user holds a strong handle to.
pub fn collect_cycles<T: Trace>(heap: &mut Heap<T>)
    requires
        old(heap)@.wf(),
    ensures
        final(heap)@ == old(heap)@.collected(),
        final(heap)@.wf(),
        final(heap)@.roots.len() == 0,
        forall|i: int|
            old(heap)@.has(i) ==> (#[trigger] final(heap)@.live(i) <==> old(heap)@.live(i) && old(heap)@.in_reach(
                i,
            )),
        forall|i: int| #[trigger]
            final(heap)@.live(i) ==> final(heap)@.boxes[i].value == old(heap)@.boxes[i].value,
        old(heap)@.roots.len() == 0 ==> final(heap)@ == old(heap)@,
        forall|i: int|
            old(heap)@.has(i) ==> #[trigger] final(heap)@.held_strong(i) == old(heap)@.held_strong(i),
        forall|i: int|
            old(heap)@.has(i) && old(heap)@.held_strong(i) >= 1 ==> (#[trigger] final(heap)@.boxes[i]).strong >= 1
                && final(heap)@.boxes[i].value == old(heap)@.boxes[i].value && old(heap)@.boxes[i].strong >= 1,
{
    let ghost s0 = heap@;
    mark_roots(heap);
    scan_roots(heap, Ghost(s0));
    collect_roots(heap, Ghost(s0));
    proof {
        lemma_collected_sound(s0);
        lemma_covered_collected(s0);
        assert forall|i: int| s0.has(i) implies (#[trigger] heap@.live(i) <==> s0.live(i) && s0.in_reach(i)) by {
            lemma_collect_exact(s0, i);
        }
        assert forall|i: int| #[trigger] heap@.live(i) implies heap@.boxes[i].value == s0.boxes[i].value by {
            lemma_collect_exact(s0, i);
        }
        if s0.roots.len() == 0 {
            lemma_collect_nothing_buffered(s0);
        }
        assert forall|i: int| s0.has(i) implies #[trigger] heap@.held_strong(i) == s0.held_strong(i) by {
            lemma_collect_keeps_held(s0, i);
        }
        assert forall|i: int| s0.has(i) && s0.held_strong(i) >= 1 implies (#[trigger] heap@.boxes[i]).strong >= 1
            && heap@.boxes[i].value == s0.boxes[i].value && s0.boxes[i].strong >= 1 by {
            lemma_collect_keeps_held(s0, i);
        }
    }
}

/// Puts box `i`, which is not in the buffer of possible roots, at its end
/// and sets the flag of the box.
pub fn add_root<T: Trace>(heap: &mut Heap<T>, i: usize)
    requires
        old(heap)@.has(i as int),
        !old(heap)@.boxes[i as int].buffered,
    ensures
        final(heap)@ == old(heap)@.with_box(
            i as int,
            BoxState { buffered: true, ..old(heap)@.boxes[i as int] },
        ).with_roots(old(heap)@.roots.push(i)),
{
    let d = *heap.data(i);
    heap.set_data(i, CcBoxData { strong: d.strong, weak: d.weak, buffered: true, color: d.color });
    heap.push_root(i);
    assert(heap@.boxes =~= old(heap)@.with_box(
        i as int,
        BoxState { buffered: true, ..old(heap)@.boxes[i as int] },
    ).boxes);
}

/// The number of possible roots in the buffer.
///
/// Whenever a strong handle is dropped and others remain, the box may be the
/// root of a cycle that nothing else holds. Such boxes are buffered, so that
/// the search for cycles can be run at a convenient time, for instance when
/// the buffer has reached some size.
pub fn number_of_roots_buffered<T: Trace>(heap: &Heap<T>) -> (n: usize)
    ensures
        n == heap@.roots.len(),
        heap@.wf() ==> n == buffered_set(heap@).len(),
{
    proof {
        if heap@.wf() {
            lemma_buffer_count(heap@);
        }
    }
    heap.roots_len()
}

} // verus!
