use bacon_rajan_cc::{Cc, Heap, Trace, Tracer, Weak};
use std::rc::Rc;
use std::sync::Arc;

/// What a tracer has been told, oldest first.
fn told(mut tracer: Tracer) -> (Vec<usize>, Vec<usize>) {
    let mut strong = Vec::new();
    while let Some(i) = tracer.pop_strong() {
        strong.push(i);
    }
    let mut weak = Vec::new();
    while let Some(i) = tracer.pop_weak() {
        weak.push(i);
    }
    strong.reverse();
    weak.reverse();
    (strong, weak)
}

fn handles(heap: &mut Heap<u32>, n: usize) -> Vec<Cc> {
    (0..n).map(|i| Cc::new(heap, i as u32)).collect()
}

#[test]
fn values_without_handles_report_nothing() {
    let mut tracer = Tracer::new();
    true.trace(&mut tracer);
    'x'.trace(&mut tracer);
    1i8.trace(&mut tracer);
    1i16.trace(&mut tracer);
    1i32.trace(&mut tracer);
    1i64.trace(&mut tracer);
    1i128.trace(&mut tracer);
    1isize.trace(&mut tracer);
    1u8.trace(&mut tracer);
    1u16.trace(&mut tracer);
    1u32.trace(&mut tracer);
    1u64.trace(&mut tracer);
    1u128.trace(&mut tracer);
    1usize.trace(&mut tracer);
    ().trace(&mut tracer);
    String::from("hello").trace(&mut tracer);
    Rc::new(5).trace(&mut tracer);
    Arc::new(5).trace(&mut tracer);
    assert_eq!(told(tracer), (vec![], vec![]));
}

#[test]
fn a_handle_reports_itself() {
    let mut heap: Heap<u32> = Heap::new();
    let hs = handles(&mut heap, 3);
    let w = hs[1].downgrade(&mut heap);
    let mut tracer = Tracer::new();
    hs[2].trace(&mut tracer);
    w.trace(&mut tracer);
    hs[0].trace(&mut tracer);
    assert_eq!(told(tracer), (vec![2, 0], vec![1]));
}

#[test]
fn containers_report_their_elements_in_order() {
    let mut heap: Heap<u32> = Heap::new();
    let mut hs = handles(&mut heap, 6);
    let w: Weak = hs[0].downgrade(&mut heap);
    let five = hs.pop().unwrap();
    let four = hs.pop().unwrap();
    let three = hs.pop().unwrap();
    let two = hs.pop().unwrap();
    let value: (Vec<Cc>, Option<Weak>, Box<Cc>, Result<Cc, u32>, (Cc,)) =
        (hs, Some(w), Box::new(two), Ok(three), (four,));
    let mut tracer = Tracer::new();
    value.trace(&mut tracer);
    (&five).trace(&mut tracer);
    let none: Option<Cc> = None;
    none.trace(&mut tracer);
    let err: Result<u32, Weak> = Err(five.downgrade(&mut heap));
    err.trace(&mut tracer);
    assert_eq!(told(tracer), (vec![0, 1, 2, 3, 4, 5], vec![0, 5]));
}

#[test]
fn tuples_report_their_parts_in_order() {
    let mut heap: Heap<u32> = Heap::new();
    let mut hs = handles(&mut heap, 9);
    hs.reverse();
    let mut next = || hs.pop().unwrap();
    let pair = (next(), next());
    let triple = (next(), 7u8, next());
    let four = (next(), next(), next(), next());
    let mut tracer = Tracer::new();
    pair.trace(&mut tracer);
    triple.trace(&mut tracer);
    four.trace(&mut tracer);
    assert_eq!(told(tracer), (vec![0, 1, 2, 3, 4, 5, 6, 7], vec![]));
}

#[test]
fn arrays_report_their_elements_in_order() {
    let mut heap: Heap<u32> = Heap::new();
    let mut hs = handles(&mut heap, 3);
    let two = hs.pop().unwrap();
    let one = hs.pop().unwrap();
    let zero = hs.pop().unwrap();
    let w = [one.downgrade(&mut heap), zero.downgrade(&mut heap)];
    let array = [two, zero, one];
    let mut tracer = Tracer::new();
    array.trace(&mut tracer);
    w.trace(&mut tracer);
    assert_eq!(told(tracer), (vec![2, 0, 1], vec![1, 0]));
}

#[test]
fn a_tracer_gives_back_what_it_was_told_last() {
    let mut tracer = Tracer::new();
    assert_eq!(tracer.pop_strong(), None);
    assert_eq!(tracer.pop_weak(), None);
    tracer.visit_strong(4);
    tracer.visit_weak(9);
    tracer.visit_strong(6);
    assert_eq!(tracer.pop_strong(), Some(6));
    assert_eq!(tracer.pop_weak(), Some(9));
    assert_eq!(tracer.pop_strong(), Some(4));
    assert_eq!(tracer.pop_strong(), None);
    assert_eq!(tracer.pop_weak(), None);
}
