use bacon_rajan_cc::{collect_cycles, number_of_roots_buffered, Cc, Color, Heap};
use std::cell::Cell;
use std::rc::Rc;

/// Lowers a counter when it is destroyed.
struct Probe(Rc<Cell<i32>>);

impl Drop for Probe {
    fn drop(&mut self) {
        self.0.set(self.0.get() - 1);
    }
}

fn probe(count: &Rc<Cell<i32>>) -> Rc<Probe> {
    count.set(count.get() + 1);
    Rc::new(Probe(count.clone()))
}

type Node = (Rc<Probe>, Vec<Cc>);

/// A source of numbers that looks random and is the same in every run.
struct Numbers(u64);

impl Numbers {
    fn next(&mut self, below: usize) -> usize {
        self.0 = self.0.wrapping_mul(6364136223846793005).wrapping_add(1442695040888963407);
        ((self.0 >> 33) as usize) % below
    }
}

/// A heap of `n` boxes with `m` handles between them, chosen by `numbers`,
/// together with the users' handles and the edges.
fn graph(
    n: usize,
    m: usize,
    numbers: &mut Numbers,
    count: &Rc<Cell<i32>>,
    downward: bool,
) -> (Heap<Node>, Vec<Option<Cc>>, Vec<Vec<usize>>) {
    let mut heap: Heap<Node> = Heap::new();
    let mut held = Vec::new();
    let mut edges = vec![Vec::new(); n];
    for _ in 0..n {
        held.push(Some(Cc::new(&mut heap, (probe(count), Vec::new()))));
    }
    for _ in 0..m {
        let a = numbers.next(n);
        let b = numbers.next(n);
        if downward && b >= a {
            continue;
        }
        let to = held[b].as_ref().unwrap().clone(&mut heap);
        held[a].as_ref().unwrap().borrow_mut(&mut heap).1.push(to);
        edges[a].push(b);
    }
    (heap, held, edges)
}

/// The boxes that can be reached from the boxes in `from`.
fn reach(edges: &[Vec<usize>], from: &[usize]) -> Vec<bool> {
    let mut seen = vec![false; edges.len()];
    let mut todo: Vec<usize> = from.to_vec();
    while let Some(a) = todo.pop() {
        if !seen[a] {
            seen[a] = true;
            for &b in &edges[a] {
                todo.push(b);
            }
        }
    }
    seen
}

fn buffered_flags(heap: &Heap<Node>) -> usize {
    (0..heap.len()).filter(|&i| heap.data(i).buffered()).count()
}

#[test]
fn clones_and_drops_cancel() {
    for n in 0..6 {
        let mut heap: Heap<u32> = Heap::new();
        let a = Cc::new(&mut heap, 7);
        let mut more = Vec::new();
        for _ in 0..n {
            more.push(a.clone(&mut heap));
        }
        assert_eq!(a.strong_count(&heap), 1 + n);
        for c in more {
            c.drop(&mut heap);
        }
        assert_eq!(a.strong_count(&heap), 1);
        assert!(heap.is_live(a.index()));
        assert!(heap.is_allocated(a.index()));
        assert_eq!(*a.deref(&heap), 7);
    }
}

#[test]
fn interleaved_clones_and_drops_cancel() {
    let mut heap: Heap<u32> = Heap::new();
    let a = Cc::new(&mut heap, 7);
    let b = a.clone(&mut heap);
    let c = b.clone(&mut heap);
    b.drop(&mut heap);
    let d = c.clone(&mut heap);
    c.drop(&mut heap);
    d.drop(&mut heap);
    assert_eq!(a.strong_count(&heap), 1);
    assert!(heap.is_allocated(a.index()));
    collect_cycles(&mut heap);
    assert_eq!(a.strong_count(&heap), 1);
    assert!(heap.is_live(a.index()));
}

#[test]
fn acyclic_graphs_die_without_a_collection() {
    for seed in 1..20u64 {
        let count = Rc::new(Cell::new(0));
        let mut numbers = Numbers(seed);
        let (mut heap, mut held, _) = graph(12, 40, &mut numbers, &count, true);
        assert_eq!(count.get(), 12);
        for h in held.iter_mut() {
            h.take().unwrap().drop(&mut heap);
        }
        assert_eq!(count.get(), 0);
        for i in 0..heap.len() {
            assert!(!heap.is_live(i));
        }
    }
}

#[test]
fn cyclic_graphs_die_in_a_collection() {
    for seed in 1..40u64 {
        let count = Rc::new(Cell::new(0));
        let mut numbers = Numbers(seed);
        let (mut heap, mut held, _) = graph(12, 30, &mut numbers, &count, false);
        for h in held.iter_mut() {
            h.take().unwrap().drop(&mut heap);
        }
        collect_cycles(&mut heap);
        assert_eq!(count.get(), 0);
        for i in 0..heap.len() {
            assert!(!heap.is_live(i));
            assert!(!heap.is_allocated(i));
        }
        assert_eq!(number_of_roots_buffered(&heap), 0);
    }
}

#[test]
fn a_collection_destroys_what_no_user_reaches_and_nothing_else() {
    for seed in 1..60u64 {
        let count = Rc::new(Cell::new(0));
        let mut numbers = Numbers(seed);
        let n = 10;
        let (mut heap, mut held, edges) = graph(n, 18, &mut numbers, &count, false);
        let mut kept = Vec::new();
        for i in 0..n {
            if numbers.next(4) == 0 {
                kept.push(i);
            } else {
                held[i].take().unwrap().drop(&mut heap);
            }
        }
        let before: Vec<usize> = kept.iter().map(|&i| heap.data(i).strong()).collect();
        collect_cycles(&mut heap);
        let live = reach(&edges, &kept);
        for i in 0..n {
            assert_eq!(heap.is_live(i), live[i]);
            let owned = (0..n).filter(|&a| live[a]).map(|a| edges[a].iter().filter(|&&b| b == i).count()).sum::<usize>();
            let user = if kept.contains(&i) { 1 } else { 0 };
            assert_eq!(heap.data(i).strong(), if live[i] { owned + user } else { 0 });
            assert!(heap.data(i).color() == Color::Black);
            assert!(!heap.data(i).buffered());
            if live[i] {
                assert_eq!(heap.data(i).weak(), 1);
                assert_eq!(heap.value(i).unwrap().1.len(), edges[i].len());
            } else {
                assert_eq!(heap.data(i).weak(), 0);
            }
        }
        assert_eq!(count.get() as usize, live.iter().filter(|&&l| l).count());
        for (k, &i) in kept.iter().enumerate() {
            assert!(before[k] >= 1);
            assert!(held[i].as_ref().unwrap().strong_count(&heap) >= 1);
        }
        // A second collection finds nothing to do.
        let strong: Vec<usize> = (0..n).map(|i| heap.data(i).strong()).collect();
        collect_cycles(&mut heap);
        for i in 0..n {
            assert_eq!(heap.is_live(i), live[i]);
            assert_eq!(heap.data(i).strong(), strong[i]);
        }
    }
}

#[test]
fn upgrade_succeeds_while_a_strong_handle_lives() {
    let mut heap: Heap<u32> = Heap::new();
    let a = Cc::new(&mut heap, 1);
    let w = a.downgrade(&mut heap);
    let b = a.clone(&mut heap);
    a.drop(&mut heap);
    assert!(b.strong_count(&heap) > 0);
    let up = w.upgrade(&mut heap);
    assert!(up.is_some());
    let up = up.unwrap();
    assert_eq!(b.strong_count(&heap), 2);
    assert!(heap.data(b.index()).color() == Color::Black);
    up.drop(&mut heap);
    b.drop(&mut heap);
    assert_eq!(heap.data(w.index()).strong(), 0);
    assert!(w.upgrade(&mut heap).is_none());
    assert_eq!(heap.data(w.index()).strong(), 0);
}

#[test]
fn the_buffer_holds_the_flagged_boxes() {
    for seed in 1..30u64 {
        let count = Rc::new(Cell::new(0));
        let mut numbers = Numbers(seed);
        let n = 10;
        let (mut heap, mut held, _) = graph(n, 20, &mut numbers, &count, false);
        assert_eq!(number_of_roots_buffered(&heap), buffered_flags(&heap));
        assert_eq!(number_of_roots_buffered(&heap), 0);
        for i in 0..n {
            if numbers.next(2) == 0 {
                held[i].take().unwrap().drop(&mut heap);
                assert_eq!(number_of_roots_buffered(&heap), buffered_flags(&heap));
            }
        }
        collect_cycles(&mut heap);
        assert_eq!(number_of_roots_buffered(&heap), buffered_flags(&heap));
        assert_eq!(number_of_roots_buffered(&heap), 0);
    }
}
