use bacon_rajan_cc::{collect_cycles, number_of_roots_buffered, Cc, Heap};

#[test]
fn test_clone() {
    let mut heap: Heap<u32> = Heap::new();
    {
        let x = Cc::new(&mut heap, 5);
        let y = x.clone(&mut heap);
        *x.borrow_mut(&mut heap) = 20;
        assert_eq!(*y.deref(&heap), 20);
        x.drop(&mut heap);
        y.drop(&mut heap);
    }
    collect_cycles(&mut heap);
}

#[test]
fn test_simple() {
    let mut heap: Heap<u32> = Heap::new();
    let x = Cc::new(&mut heap, 5);
    assert_eq!(*x.deref(&heap), 5);
}

#[test]
fn test_simple_clone() {
    let mut heap: Heap<u32> = Heap::new();
    {
        let x = Cc::new(&mut heap, 5);
        let y = x.clone(&mut heap);
        assert_eq!(*x.deref(&heap), 5);
        assert_eq!(*y.deref(&heap), 5);
        x.drop(&mut heap);
        y.drop(&mut heap);
    }
    collect_cycles(&mut heap);
}

#[test]
fn test_destructor() {
    let mut heap: Heap<Box<u32>> = Heap::new();
    let x = Cc::new(&mut heap, Box::new(5));
    assert_eq!(**x.deref(&heap), 5);
}

#[test]
fn test_live() {
    let mut heap: Heap<u32> = Heap::new();
    {
        let x = Cc::new(&mut heap, 5);
        let y = x.downgrade(&mut heap);
        let up = y.upgrade(&mut heap);
        assert!(up.is_some());
        up.unwrap().drop(&mut heap);
        y.drop(&mut heap);
        x.drop(&mut heap);
    }
    collect_cycles(&mut heap);
}

#[test]
fn test_dead() {
    let mut heap: Heap<u32> = Heap::new();
    let x = Cc::new(&mut heap, 5);
    let y = x.downgrade(&mut heap);
    x.drop(&mut heap);
    assert!(y.upgrade(&mut heap).is_none());
}

#[test]
fn is_unique() {
    let mut heap: Heap<u32> = Heap::new();
    {
        let x = Cc::new(&mut heap, 3);
        assert!(x.is_unique(&heap));
        let y = x.clone(&mut heap);
        assert!(!x.is_unique(&heap));
        y.drop(&mut heap);
        assert!(x.is_unique(&heap));
        let w = x.downgrade(&mut heap);
        assert!(!x.is_unique(&heap));
        w.drop(&mut heap);
        assert!(x.is_unique(&heap));
        x.drop(&mut heap);
    }
    collect_cycles(&mut heap);
}

#[test]
fn test_strong_count() {
    let mut heap: Heap<u32> = Heap::new();
    {
        let a = Cc::new(&mut heap, 0u32);
        assert!(a.strong_count(&heap) == 1);
        let w = a.downgrade(&mut heap);
        assert!(a.strong_count(&heap) == 1);
        let b = w.upgrade(&mut heap).expect("upgrade of live rc failed");
        assert!(b.strong_count(&heap) == 2);
        assert!(b.strong_count(&heap) == 2);
        w.drop(&mut heap);
        a.drop(&mut heap);
        assert!(b.strong_count(&heap) == 1);
        let c = b.clone(&mut heap);
        assert!(b.strong_count(&heap) == 2);
        assert!(c.strong_count(&heap) == 2);
        b.drop(&mut heap);
        c.drop(&mut heap);
    }
    collect_cycles(&mut heap);
}

#[test]
fn test_weak_count() {
    let mut heap: Heap<u32> = Heap::new();
    {
        let a = Cc::new(&mut heap, 0u32);
        assert!(a.strong_count(&heap) == 1);
        assert!(a.weak_count(&heap) == 0);
        let w = a.downgrade(&mut heap);
        assert!(a.strong_count(&heap) == 1);
        assert!(a.weak_count(&heap) == 1);
        w.drop(&mut heap);
        assert!(a.strong_count(&heap) == 1);
        assert!(a.weak_count(&heap) == 0);
        let c = a.clone(&mut heap);
        assert!(a.strong_count(&heap) == 2);
        assert!(a.weak_count(&heap) == 0);
        c.drop(&mut heap);
        a.drop(&mut heap);
    }
    collect_cycles(&mut heap);
}

#[test]
fn try_unwrap() {
    let mut heap: Heap<u32> = Heap::new();
    {
        let x = Cc::new(&mut heap, 3);
        assert!(matches!(x.try_unwrap(&mut heap), Ok(3)));
        let x = Cc::new(&mut heap, 4);
        let y = x.clone(&mut heap);
        match x.try_unwrap(&mut heap) {
            Ok(_) => panic!("a shared box was unwrapped"),
            Err(back) => {
                assert_eq!(*back.deref(&heap), 4);
                assert!(Cc::ptr_eq(&back, &y));
                back.drop(&mut heap);
            },
        }
        y.drop(&mut heap);
        let x = Cc::new(&mut heap, 5);
        let w = x.downgrade(&mut heap);
        match x.try_unwrap(&mut heap) {
            Ok(_) => panic!("a box with a weak handle was unwrapped"),
            Err(back) => {
                assert_eq!(*back.deref(&heap), 5);
                back.drop(&mut heap);
            },
        }
        w.drop(&mut heap);
    }
    collect_cycles(&mut heap);
}

#[test]
fn get_mut() {
    let mut heap: Heap<u32> = Heap::new();
    {
        let mut x = Cc::new(&mut heap, 3);
        *x.get_mut(&mut heap).unwrap() = 4;
        assert_eq!(*x.deref(&heap), 4);
        let y = x.clone(&mut heap);
        assert!(x.get_mut(&mut heap).is_none());
        y.drop(&mut heap);
        assert!(x.get_mut(&mut heap).is_some());
        let w = x.downgrade(&mut heap);
        assert!(x.get_mut(&mut heap).is_none());
        w.drop(&mut heap);
        x.drop(&mut heap);
    }
    collect_cycles(&mut heap);
}

#[test]
fn test_cowrc_clone_make_unique() {
    let mut heap: Heap<u32> = Heap::new();
    {
        let mut cow0 = Cc::new(&mut heap, 75);
        let mut cow1 = cow0.clone(&mut heap);
        let mut cow2 = cow1.clone(&mut heap);

        assert!(75 == *cow0.make_unique(&mut heap));
        assert!(75 == *cow1.make_unique(&mut heap));
        assert!(75 == *cow2.make_unique(&mut heap));

        *cow0.make_unique(&mut heap) += 1;
        *cow1.make_unique(&mut heap) += 2;
        *cow2.make_unique(&mut heap) += 3;

        assert!(76 == *cow0.deref(&heap));
        assert!(77 == *cow1.deref(&heap));
        assert!(78 == *cow2.deref(&heap));

        // none should point to the same backing memory
        assert!(*cow0.deref(&heap) != *cow1.deref(&heap));
        assert!(*cow0.deref(&heap) != *cow2.deref(&heap));
        assert!(*cow1.deref(&heap) != *cow2.deref(&heap));
        assert!(!Cc::ptr_eq(&cow0, &cow1));
        assert!(!Cc::ptr_eq(&cow0, &cow2));
        assert!(!Cc::ptr_eq(&cow1, &cow2));
        cow0.drop(&mut heap);
        cow1.drop(&mut heap);
        cow2.drop(&mut heap);
    }
    collect_cycles(&mut heap);
}

#[test]
fn test_cowrc_clone_unique2() {
    let mut heap: Heap<u32> = Heap::new();
    {
        let mut cow0 = Cc::new(&mut heap, 75);
        let cow1 = cow0.clone(&mut heap);
        let cow2 = cow1.clone(&mut heap);

        assert!(75 == *cow0.deref(&heap));
        assert!(75 == *cow1.deref(&heap));
        assert!(75 == *cow2.deref(&heap));

        *cow0.make_unique(&mut heap) += 1;

        assert!(76 == *cow0.deref(&heap));
        assert!(75 == *cow1.deref(&heap));
        assert!(75 == *cow2.deref(&heap));

        // cow1 and cow2 should share the same contents
        // cow0 should have a unique reference
        assert!(*cow0.deref(&heap) != *cow1.deref(&heap));
        assert!(*cow0.deref(&heap) != *cow2.deref(&heap));
        assert!(*cow1.deref(&heap) == *cow2.deref(&heap));
        assert!(Cc::ptr_eq(&cow1, &cow2));
        assert!(!Cc::ptr_eq(&cow0, &cow1));
        cow0.drop(&mut heap);
        cow1.drop(&mut heap);
        cow2.drop(&mut heap);
    }
    collect_cycles(&mut heap);
}

#[test]
fn test_cowrc_clone_weak() {
    let mut heap: Heap<u32> = Heap::new();
    {
        let mut cow0 = Cc::new(&mut heap, 75);
        let cow1_weak = cow0.downgrade(&mut heap);

        assert!(75 == *cow0.deref(&heap));
        let up = cow1_weak.upgrade(&mut heap).unwrap();
        assert!(75 == *up.deref(&heap));
        up.drop(&mut heap);

        *cow0.make_unique(&mut heap) += 1;

        assert!(76 == *cow0.deref(&heap));
        assert!(cow1_weak.upgrade(&mut heap).is_none());
        cow1_weak.drop(&mut heap);
        cow0.drop(&mut heap);
    }
    collect_cycles(&mut heap);
}

#[test]
fn non_cyclic_box_dies_with_its_last_handle() {
    let mut heap: Heap<u32> = Heap::new();
    let a = Cc::new(&mut heap, 5);
    let i = a.index();
    let b = a.clone(&mut heap);
    a.drop(&mut heap);
    assert!(heap.is_live(i));
    assert_eq!(*b.deref(&heap), 5);
    assert_eq!(number_of_roots_buffered(&heap), 1);
    b.drop(&mut heap);
    assert!(!heap.is_live(i));
    // The box is in the buffer, so its storage waits for the next collection.
    assert!(heap.is_allocated(i));
    collect_cycles(&mut heap);
    assert!(!heap.is_allocated(i));
}

#[test]
fn unbuffered_box_is_released_at_once() {
    let mut heap: Heap<u32> = Heap::new();
    let a = Cc::new(&mut heap, 5);
    let i = a.index();
    a.drop(&mut heap);
    assert!(!heap.is_live(i));
    assert!(!heap.is_allocated(i));
    assert_eq!(number_of_roots_buffered(&heap), 0);
}

#[test]
fn weak_handle_keeps_the_storage() {
    let mut heap: Heap<u32> = Heap::new();
    let a = Cc::new(&mut heap, 5);
    let i = a.index();
    let w = a.downgrade(&mut heap);
    let w2 = w.clone(&mut heap);
    assert_eq!(a.weak_count(&heap), 2);
    assert_eq!(heap.data(i).weak(), 3);
    a.drop(&mut heap);
    assert!(!heap.is_live(i));
    assert!(heap.is_allocated(i));
    assert_eq!(heap.data(i).strong(), 0);
    assert_eq!(heap.data(i).weak(), 2);
    w.drop(&mut heap);
    assert!(heap.is_allocated(i));
    w2.drop(&mut heap);
    assert!(!heap.is_allocated(i));
}

#[test]
fn try_unwrap_of_a_buffered_box_waits_for_the_collection() {
    let mut heap: Heap<u32> = Heap::new();
    let x = Cc::new(&mut heap, 9);
    let i = x.index();
    let y = x.clone(&mut heap);
    y.drop(&mut heap);
    assert_eq!(number_of_roots_buffered(&heap), 1);
    assert!(x.is_unique(&heap));
    assert!(matches!(x.try_unwrap(&mut heap), Ok(9)));
    assert!(!heap.is_live(i));
    assert!(heap.is_allocated(i));
    assert_eq!(number_of_roots_buffered(&heap), 1);
    collect_cycles(&mut heap);
    assert!(!heap.is_allocated(i));
    assert_eq!(number_of_roots_buffered(&heap), 0);
}

#[test]
fn ptr_eq_tells_boxes_apart() {
    let mut heap: Heap<u32> = Heap::new();
    let five = Cc::new(&mut heap, 5);
    let same_five = five.clone(&mut heap);
    let other_five = Cc::new(&mut heap, 5);
    assert!(Cc::ptr_eq(&five, &same_five));
    assert!(!Cc::ptr_eq(&five, &other_five));
}

#[test]
fn test_map() {
    let mut map = std::collections::HashMap::new();

    map.insert("Foo".to_string(), 4);

    let mut heap: Heap<std::rc::Rc<std::collections::HashMap<String, i32>>> = Heap::new();
    let x = Cc::new(&mut heap, std::rc::Rc::new(map));
    assert_eq!(x.deref(&heap).get("Foo"), Some(&4));
}
