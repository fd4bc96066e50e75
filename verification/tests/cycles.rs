use bacon_rajan_cc::{collect_cycles, number_of_roots_buffered, Cc, Color, Heap, Weak};
use std::cell::Cell;
use std::rc::Rc;

/// Lowers a counter when it is destroyed.
struct Probe(Rc<Cell<i32>>);

impl Drop for Probe {
    fn drop(&mut self) {
        self.0.set(self.0.get() - 1);
    }
}

fn probe(count: &Rc<Cell<i32>>) -> Rc<Probe> {
    count.set(count.get() + 1);
    Rc::new(Probe(count.clone()))
}

#[test]
fn weak_self_cyclic() {
    let mut heap: Heap<Option<Weak>> = Heap::new();
    let a = Cc::new(&mut heap, None);
    let ia = a.index();
    let tmp = a.clone(&mut heap);
    let b = tmp.downgrade(&mut heap);
    tmp.drop(&mut heap);
    *a.borrow_mut(&mut heap) = Some(b);
    a.drop(&mut heap);
    collect_cycles(&mut heap);
    // hopefully we don't double-free (or leak)...
    assert!(!heap.is_live(ia));
    assert!(!heap.is_allocated(ia));
}

#[test]
fn self_cycle_through_weak() {
    let mut heap: Heap<Option<Weak>> = Heap::new();
    let a = Cc::new(&mut heap, None);
    let ia = a.index();
    let w = a.downgrade(&mut heap);
    *a.borrow_mut(&mut heap) = Some(w);
    assert_eq!(heap.data(ia).weak(), 2);
    a.drop(&mut heap);
    // The payload is destroyed at once, and the weak handle in it goes
    // with it: nothing holds the storage.
    assert!(!heap.is_live(ia));
    assert!(!heap.is_allocated(ia));
    collect_cycles(&mut heap);
    assert!(!heap.is_allocated(ia));
}

#[test]
fn list_cycle() {
    let mut heap: Heap<(Rc<Probe>, Vec<Cc>)> = Heap::new();
    let count = Rc::new(Cell::new(0));
    let (ia, ib);
    {
        let a = Cc::new(&mut heap, (probe(&count), Vec::new()));
        let b = Cc::new(&mut heap, (probe(&count), Vec::new()));
        ia = a.index();
        ib = b.index();
        {
            let b2 = b.clone(&mut heap);
            a.borrow_mut(&mut heap).1.push(b2);
        }
        {
            let a2 = a.clone(&mut heap);
            b.borrow_mut(&mut heap).1.push(a2);
        }
        a.drop(&mut heap);
        b.drop(&mut heap);
    }
    assert_eq!(count.get(), 2);
    assert_eq!(number_of_roots_buffered(&heap), 2);
    collect_cycles(&mut heap);
    // Both destructors have run, once each, and both boxes are gone.
    assert_eq!(count.get(), 0);
    assert!(!heap.is_live(ia));
    assert!(!heap.is_live(ib));
    assert!(!heap.is_allocated(ia));
    assert!(!heap.is_allocated(ib));
    assert_eq!(number_of_roots_buffered(&heap), 0);
}

#[test]
fn test_retain_weak() {
    let mut heap: Heap<Option<Cc>> = Heap::new();
    let retained_weak_a;
    let ix;
    {
        let a = Cc::new(&mut heap, None);
        ix = a.index();
        let a2 = a.clone(&mut heap);
        *a.borrow_mut(&mut heap) = Some(a2);
        retained_weak_a = a.downgrade(&mut heap);
        a.drop(&mut heap);
    }
    assert!(heap.is_live(ix));
    collect_cycles(&mut heap);
    assert!(!heap.is_live(ix));
    assert!(heap.is_allocated(ix));
    assert!(retained_weak_a.upgrade(&mut heap).is_none());
    retained_weak_a.drop(&mut heap);
    assert!(!heap.is_allocated(ix));
}

#[test]
fn test_no_leak_with_double_indirection() {
    let mut heap: Heap<(i32, Option<Cc>)> = Heap::new();
    // If either of the drops below is missing, we don't get a leak
    let ty = Cc::new(&mut heap, (5, None));
    let ity = ty.index();
    ty.clone(&mut heap).drop(&mut heap);
    let s = Cc::new(&mut heap, (0, Some(ty)));
    let is = s.index();
    s.clone(&mut heap).drop(&mut heap);

    // if collect_cycles() is called before s is dropped, we don't get a leak
    s.drop(&mut heap);
    collect_cycles(&mut heap);
    assert!(!heap.is_live(ity));
    assert!(!heap.is_live(is));
    assert!(!heap.is_allocated(ity));
    assert!(!heap.is_allocated(is));
}

type Link = Option<(Rc<Probe>, Cc)>;

fn new_a(count: &Rc<Cell<i32>>, heap: &mut Heap<Link>, next: Link) -> (Rc<Probe>, Cc) {
    let p = probe(count);
    (p, Cc::new(heap, next))
}

fn clone_a(count: &Rc<Cell<i32>>, heap: &mut Heap<Link>, a: &(Rc<Probe>, Cc)) -> (Rc<Probe>, Cc) {
    (probe(count), a.1.clone(heap))
}

#[test]
fn test_double_visit_scan_black() {
    let mut heap: Heap<Link> = Heap::new();
    let count = Rc::new(Cell::new(0));
    {
        let q;
        {
            let z = new_a(&count, &mut heap, None);
            let zc = clone_a(&count, &mut heap, &z);
            let y = new_a(&count, &mut heap, Some(zc));
            let x = new_a(&count, &mut heap, Some(y));
            let xc = clone_a(&count, &mut heap, &x);
            *z.1.borrow_mut(&mut heap) = Some(xc);
            q = x;
            let (zp, zh) = z;
            zh.drop(&mut heap);
            drop(zp);
        }
        collect_cycles(&mut heap);
        let old = std::mem::replace(q.1.borrow_mut(&mut heap), None);
        if let Some((p, h)) = old {
            h.drop(&mut heap);
            drop(p);
        }
        let (qp, qh) = q;
        qh.drop(&mut heap);
        drop(qp);
    }
    collect_cycles(&mut heap);
    assert_eq!(count.get(), 0);
}

type Env = (Vec<Cc>, Option<Cc>);

#[test]
fn extra_free() {
    // A box is an environment, with closures and a next environment, or a
    // closure, with its environment as the only entry of the first part.
    let mut heap: Heap<Env> = Heap::new();
    let ienv_a;
    let icircular;
    let iclos;
    let live_env = {
        let base_env = Cc::new(&mut heap, (vec![], None));

        let e = base_env.clone(&mut heap);
        let clos_a = Cc::new(&mut heap, (vec![e], None));
        let n = base_env.clone(&mut heap);
        let env_a = Cc::new(&mut heap, (vec![clos_a], Some(n)));
        ienv_a = env_a.index();

        let e = base_env.clone(&mut heap);
        let clos_c = Cc::new(&mut heap, (vec![e], None));
        iclos = clos_c.index();
        let clos_c_held = clos_c.clone(&mut heap);
        let n = env_a.clone(&mut heap);
        let circular_env = Cc::new(&mut heap, (vec![clos_c], Some(n)));
        icircular = circular_env.index();
        let c = circular_env.clone(&mut heap);
        let old = std::mem::replace(clos_c_held.borrow_mut(&mut heap), (vec![c], None));
        for h in old.0 {
            h.drop(&mut heap);
        }
        clos_c_held.drop(&mut heap);

        let n = env_a.clone(&mut heap);
        let live_env = Cc::new(&mut heap, (vec![], Some(n)));

        base_env.drop(&mut heap); // don't need the stack ref
        env_a.drop(&mut heap); // don't need the stack ref
        collect_cycles(&mut heap);

        circular_env.drop(&mut heap); // cycle root
        collect_cycles(&mut heap);

        live_env
    };

    assert!(!heap.is_live(icircular));
    assert!(!heap.is_live(iclos));
    assert!(!heap.is_allocated(icircular));
    assert!(!heap.is_allocated(iclos));
    assert!(heap.is_live(ienv_a));
    assert_eq!(heap.data(ienv_a).strong(), 1);
    if let Some(a) = &live_env.deref(&heap).1 {
        assert_eq!(a.deref(&heap).0.len(), 1);
    } else {
        panic!("the live environment lost its next environment");
    }
    live_env.drop(&mut heap);
    collect_cycles(&mut heap);
    assert!(!heap.is_live(ienv_a));
    assert!(!heap.is_allocated(ienv_a));
}

#[test]
fn weak_cycle() {
    // An owner knows its gadget by a weak handle; a gadget holds its owner.
    let mut heap: Heap<(Option<Weak>, Option<Cc>)> = Heap::new();
    let gadget_owner = Cc::new(&mut heap, (None, None));
    let o = gadget_owner.clone(&mut heap);
    let gadget = Cc::new(&mut heap, (None, Some(o)));
    let (io, ig) = (gadget_owner.index(), gadget.index());

    let tmp = gadget.clone(&mut heap);
    let w = tmp.downgrade(&mut heap);
    tmp.drop(&mut heap);
    gadget_owner.borrow_mut(&mut heap).0 = Some(w);

    gadget_owner.drop(&mut heap);
    gadget.drop(&mut heap);
    collect_cycles(&mut heap);
    assert!(!heap.is_live(io));
    assert!(!heap.is_live(ig));
    assert!(!heap.is_allocated(io));
    assert!(!heap.is_allocated(ig));
}

#[test]
fn collection_of_an_empty_buffer_changes_nothing() {
    let mut heap: Heap<(u32, Vec<Cc>)> = Heap::new();
    let a = Cc::new(&mut heap, (1, vec![]));
    let a2 = a.clone(&mut heap);
    let b = Cc::new(&mut heap, (2, vec![a2]));
    assert_eq!(number_of_roots_buffered(&heap), 0);
    collect_cycles(&mut heap);
    collect_cycles(&mut heap);
    assert_eq!(heap.len(), 2);
    assert_eq!(a.strong_count(&heap), 2);
    assert_eq!(b.strong_count(&heap), 1);
    assert_eq!(a.weak_count(&heap), 0);
    assert_eq!(a.deref(&heap).0, 1);
    assert_eq!(b.deref(&heap).0, 2);
    assert!(heap.data(a.index()).color() == Color::Black);
    assert_eq!(number_of_roots_buffered(&heap), 0);
}

#[test]
fn live_boxes_get_their_counts_back() {
    // a <-> b is a cycle that a user still holds: the mark phase takes the
    // counts down and the scan phase gives them back.
    let mut heap: Heap<Vec<Cc>> = Heap::new();
    let a = Cc::new(&mut heap, vec![]);
    let b = Cc::new(&mut heap, vec![]);
    let a2 = a.clone(&mut heap);
    b.borrow_mut(&mut heap).push(a2);
    let b2 = b.clone(&mut heap);
    a.borrow_mut(&mut heap).push(b2);
    b.drop(&mut heap);
    let ib = a.deref(&heap)[0].index();
    assert_eq!(number_of_roots_buffered(&heap), 1);
    assert!(heap.data(ib).color() == Color::Purple);
    assert!(heap.data(ib).buffered());
    assert_eq!(a.strong_count(&heap), 2);
    collect_cycles(&mut heap);
    assert_eq!(a.strong_count(&heap), 2);
    assert_eq!(heap.data(ib).strong(), 1);
    assert!(heap.is_live(ib));
    assert!(heap.data(ib).color() == Color::Black);
    assert!(!heap.data(ib).buffered());
    assert_eq!(number_of_roots_buffered(&heap), 0);
    assert_eq!(a.deref(&heap).len(), 1);
}

#[test]
fn cross_edges_are_counted_once() {
    // r -> x, r -> y, x -> z, y -> z, z -> r: z is reached twice, and every
    // handle is taken into account exactly once.
    let mut heap: Heap<Vec<Cc>> = Heap::new();
    let z = Cc::new(&mut heap, vec![]);
    let z2 = z.clone(&mut heap);
    let x = Cc::new(&mut heap, vec![z2]);
    let z3 = z.clone(&mut heap);
    let y = Cc::new(&mut heap, vec![z3]);
    let r = Cc::new(&mut heap, vec![x, y]);
    let r2 = r.clone(&mut heap);
    z.borrow_mut(&mut heap).push(r2);
    let (ir, iz) = (r.index(), z.index());
    let keep = z.clone(&mut heap);
    z.drop(&mut heap);
    r.drop(&mut heap);
    assert_eq!(heap.data(iz).strong(), 3);
    collect_cycles(&mut heap);
    // The user still holds z, so everything lives, with the counts as before.
    assert_eq!(heap.data(iz).strong(), 3);
    assert_eq!(heap.data(ir).strong(), 1);
    assert!(heap.is_live(ir));
    keep.drop(&mut heap);
    collect_cycles(&mut heap);
    assert_eq!(heap.len(), 4);
    for i in 0..4 {
        assert!(!heap.is_live(i));
        assert!(!heap.is_allocated(i));
    }
}

#[test]
fn garbage_gives_up_the_weak_handles_it_owns() {
    // a <-> b is garbage; a also owns a weak handle to c, which a user
    // holds strongly.
    let mut heap: Heap<(Vec<Cc>, Option<Weak>)> = Heap::new();
    let c = Cc::new(&mut heap, (vec![], None));
    let wc = c.downgrade(&mut heap);
    let a = Cc::new(&mut heap, (vec![], Some(wc)));
    let a2 = a.clone(&mut heap);
    let b = Cc::new(&mut heap, (vec![a2], None));
    a.borrow_mut(&mut heap).0.push(b);
    let ia = a.index();
    assert_eq!(c.weak_count(&heap), 1);
    a.drop(&mut heap);
    collect_cycles(&mut heap);
    assert!(!heap.is_live(ia));
    assert_eq!(c.weak_count(&heap), 0);
    assert_eq!(c.strong_count(&heap), 1);
}

#[test]
fn a_box_that_was_used_again_is_no_candidate() {
    let mut heap: Heap<Vec<Cc>> = Heap::new();
    let a = Cc::new(&mut heap, vec![]);
    let ia = a.index();
    let a2 = a.clone(&mut heap);
    a2.drop(&mut heap);
    assert!(heap.data(ia).color() == Color::Purple);
    let a3 = a.clone(&mut heap);
    assert!(heap.data(ia).color() == Color::Black);
    assert!(heap.data(ia).buffered());
    assert_eq!(number_of_roots_buffered(&heap), 1);
    collect_cycles(&mut heap);
    assert!(!heap.data(ia).buffered());
    assert_eq!(a.strong_count(&heap), 2);
    assert_eq!(number_of_roots_buffered(&heap), 0);
    a3.drop(&mut heap);
    a.drop(&mut heap);
}

#[test]
fn a_box_is_buffered_once() {
    let mut heap: Heap<u32> = Heap::new();
    let a = Cc::new(&mut heap, 1);
    let a2 = a.clone(&mut heap);
    let a3 = a.clone(&mut heap);
    let a4 = a.clone(&mut heap);
    a2.drop(&mut heap);
    a3.drop(&mut heap);
    assert_eq!(number_of_roots_buffered(&heap), 1);
    // Black again, still buffered: the next drop does not add it again.
    let a5 = a.clone(&mut heap);
    a4.drop(&mut heap);
    assert_eq!(number_of_roots_buffered(&heap), 1);
    a5.drop(&mut heap);
    assert_eq!(a.strong_count(&heap), 1);
}

#[test]
fn dropping_a_chain_destroys_it_without_a_collection() {
    let mut heap: Heap<(Rc<Probe>, Option<Cc>)> = Heap::new();
    let count = Rc::new(Cell::new(0));
    let mut head = Cc::new(&mut heap, (probe(&count), None));
    for _ in 0..9 {
        head = Cc::new(&mut heap, (probe(&count), Some(head)));
    }
    assert_eq!(count.get(), 10);
    head.drop(&mut heap);
    assert_eq!(count.get(), 0);
    for i in 0..10 {
        assert!(!heap.is_live(i));
        assert!(!heap.is_allocated(i));
    }
    assert_eq!(number_of_roots_buffered(&heap), 0);
}

#[test]
fn gadgets_are_buffered_and_collected() {
    // A parent owns its children, and each child owns its parent.
    let mut heap: Heap<(Rc<Probe>, Option<Cc>, Vec<Cc>)> = Heap::new();
    let count = Rc::new(Cell::new(0));
    assert_eq!(number_of_roots_buffered(&heap), 0);
    {
        let parent = Cc::new(&mut heap, (probe(&count), None, vec![]));
        let mut children = vec![];
        for _ in 0..10 {
            let p = parent.clone(&mut heap);
            let child = Cc::new(&mut heap, (probe(&count), Some(p), vec![]));
            let c = child.clone(&mut heap);
            parent.borrow_mut(&mut heap).2.push(c);
            children.push(child);
        }
        assert_eq!(number_of_roots_buffered(&heap), 0);
        assert_eq!(count.get(), 11);
        for child in children {
            child.drop(&mut heap);
        }
        parent.drop(&mut heap);
    }
    assert_eq!(number_of_roots_buffered(&heap), 1 /* parent */ + 10 /* children */);
    assert_eq!(count.get(), 11);
    collect_cycles(&mut heap);
    assert_eq!(count.get(), 0);
    assert_eq!(number_of_roots_buffered(&heap), 0);
}

#[test]
fn a_white_box_turns_black_again() {
    // r <-> w is a cycle, and a, which a user holds, owns a handle to w. The
    // scan from r finds r without a strong handle and colors it white; then
    // it finds w alive, and from w it finds r alive after all.
    let mut heap: Heap<Vec<Cc>> = Heap::new();
    let r = Cc::new(&mut heap, vec![]);
    let w = Cc::new(&mut heap, vec![]);
    let a = Cc::new(&mut heap, vec![]);
    let (ir, iw) = (r.index(), w.index());
    let h = w.clone(&mut heap);
    r.borrow_mut(&mut heap).push(h);
    let h = r.clone(&mut heap);
    w.borrow_mut(&mut heap).push(h);
    let h = w.clone(&mut heap);
    a.borrow_mut(&mut heap).push(h);
    r.drop(&mut heap);
    w.drop(&mut heap);
    assert_eq!(number_of_roots_buffered(&heap), 2);
    assert_eq!(heap.data(ir).strong(), 1);
    assert_eq!(heap.data(iw).strong(), 2);
    collect_cycles(&mut heap);
    assert!(heap.is_live(ir));
    assert!(heap.is_live(iw));
    assert_eq!(heap.data(ir).strong(), 1);
    assert_eq!(heap.data(iw).strong(), 2);
    assert!(heap.data(ir).color() == Color::Black);
    assert!(heap.data(iw).color() == Color::Black);
    assert_eq!(number_of_roots_buffered(&heap), 0);
    a.drop(&mut heap);
    // The last handle to a is gone: a dies at once, and w becomes a
    // possible root again.
    assert!(!heap.is_live(a_index(&heap)));
    assert_eq!(number_of_roots_buffered(&heap), 1);
    collect_cycles(&mut heap);
    assert!(!heap.is_live(ir));
    assert!(!heap.is_live(iw));
    assert!(!heap.is_allocated(ir));
    assert!(!heap.is_allocated(iw));
}

/// The box made last.
fn a_index(heap: &Heap<Vec<Cc>>) -> usize {
    heap.len() - 1
}
