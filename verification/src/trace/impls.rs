//! The tracing contract for the types of the standard library.
//!
//! Values without handles report nothing; containers report what their
//! elements report, in order.
use crate::trace::{Trace, Tracer};
use std::rc::Rc;
use std::sync::Arc;
use vstd::prelude::*;

verus! {

/// Nothing is reported: the tracer is as it was.
pub proof fn lemma_nothing_reported(t: Tracer)
    ensures
        t.strong() == t.strong() + Seq::<usize>::empty(),
        t.weak() == t.weak() + Seq::<usize>::empty(),
{
    assert(t.strong() + Seq::<usize>::empty() =~= t.strong());
    assert(t.weak() + Seq::<usize>::empty() =~= t.weak());
}

/// Reporting in two steps is reporting the two parts one after the other.
pub proof fn lemma_reported_twice(a: Seq<usize>, b: Seq<usize>, c: Seq<usize>)
    ensures
        (a + b) + c == a + (b + c),
{
    assert((a + b) + c =~= a + (b + c));
}

/// A truth value owns no handle.
impl Trace for bool {
    open spec fn strong_refs(&self) -> Seq<usize> {
        Seq::empty()
    }

    open spec fn weak_refs(&self) -> Seq<usize> {
        Seq::empty()
    }

    fn trace(&self, tracer: &mut Tracer) {
        proof {
            lemma_nothing_reported(*tracer);
        }
    }
}

/// A character owns no handle.
impl Trace for char {
    open spec fn strong_refs(&self) -> Seq<usize> {
        Seq::empty()
    }

    open spec fn weak_refs(&self) -> Seq<usize> {
        Seq::empty()
    }

    fn trace(&self, tracer: &mut Tracer) {
        proof {
            lemma_nothing_reported(*tracer);
        }
    }
}

/// An integer owns no handle.
impl Trace for i8 {
    open spec fn strong_refs(&self) -> Seq<usize> {
        Seq::empty()
    }

    open spec fn weak_refs(&self) -> Seq<usize> {
        Seq::empty()
    }

    fn trace(&self, tracer: &mut Tracer) {
        proof {
            lemma_nothing_reported(*tracer);
        }
    }
}

/// An integer owns no handle.
impl Trace for i16 {
    open spec fn strong_refs(&self) -> Seq<usize> {
        Seq::empty()
    }

    open spec fn weak_refs(&self) -> Seq<usize> {
        Seq::empty()
    }

    fn trace(&self, tracer: &mut Tracer) {
        proof {
            lemma_nothing_reported(*tracer);
        }
    }
}

/// An integer owns no handle.
impl Trace for i32 {
    open spec fn strong_refs(&self) -> Seq<usize> {
        Seq::empty()
    }

    open spec fn weak_refs(&self) -> Seq<usize> {
        Seq::empty()
    }

    fn trace(&self, tracer: &mut Tracer) {
        proof {
            lemma_nothing_reported(*tracer);
        }
    }
}

/// An integer owns no handle.
impl Trace for i64 {
    open spec fn strong_refs(&self) -> Seq<usize> {
        Seq::empty()
    }

    open spec fn weak_refs(&self) -> Seq<usize> {
        Seq::empty()
    }

    fn trace(&self, tracer: &mut Tracer) {
        proof {
            lemma_nothing_reported(*tracer);
        }
    }
}

/// An integer owns no handle.
impl Trace for i128 {
    open spec fn strong_refs(&self) -> Seq<usize> {
        Seq::empty()
    }

    open spec fn weak_refs(&self) -> Seq<usize> {
        Seq::empty()
    }

    fn trace(&self, tracer: &mut Tracer) {
        proof {
            lemma_nothing_reported(*tracer);
        }
    }
}

/// An integer owns no handle.
impl Trace for isize {
    open spec fn strong_refs(&self) -> Seq<usize> {
        Seq::empty()
    }

    open spec fn weak_refs(&self) -> Seq<usize> {
        Seq::empty()
    }

    fn trace(&self, tracer: &mut Tracer) {
        proof {
            lemma_nothing_reported(*tracer);
        }
    }
}

/// An integer owns no handle.
impl Trace for u8 {
    open spec fn strong_refs(&self) -> Seq<usize> {
        Seq::empty()
    }

    open spec fn weak_refs(&self) -> Seq<usize> {
        Seq::empty()
    }

    fn trace(&self, tracer: &mut Tracer) {
        proof {
            lemma_nothing_reported(*tracer);
        }
    }
}

/// An integer owns no handle.
impl Trace for u16 {
    open spec fn strong_refs(&self) -> Seq<usize> {
        Seq::empty()
    }

    open spec fn weak_refs(&self) -> Seq<usize> {
        Seq::empty()
    }

    fn trace(&self, tracer: &mut Tracer) {
        proof {
            lemma_nothing_reported(*tracer);
        }
    }
}

/// An integer owns no handle.
impl Trace for u32 {
    open spec fn strong_refs(&self) -> Seq<usize> {
        Seq::empty()
    }

    open spec fn weak_refs(&self) -> Seq<usize> {
        Seq::empty()
    }

    fn trace(&self, tracer: &mut Tracer) {
        proof {
            lemma_nothing_reported(*tracer);
        }
    }
}

/// An integer owns no handle.
impl Trace for u64 {
    open spec fn strong_refs(&self) -> Seq<usize> {
        Seq::empty()
    }

    open spec fn weak_refs(&self) -> Seq<usize> {
        Seq::empty()
    }

    fn trace(&self, tracer: &mut Tracer) {
        proof {
            lemma_nothing_reported(*tracer);
        }
    }
}

/// An integer owns no handle.
impl Trace for u128 {
    open spec fn strong_refs(&self) -> Seq<usize> {
        Seq::empty()
    }

    open spec fn weak_refs(&self) -> Seq<usize> {
        Seq::empty()
    }

    fn trace(&self, tracer: &mut Tracer) {
        proof {
            lemma_nothing_reported(*tracer);
        }
    }
}

/// An integer owns no handle.
impl Trace for usize {
    open spec fn strong_refs(&self) -> Seq<usize> {
        Seq::empty()
    }

    open spec fn weak_refs(&self) -> Seq<usize> {
        Seq::empty()
    }

    fn trace(&self, tracer: &mut Tracer) {
        proof {
            lemma_nothing_reported(*tracer);
        }
    }
}

/// The unit value owns no handle.
impl Trace for () {
    open spec fn strong_refs(&self) -> Seq<usize> {
        Seq::empty()
    }

    open spec fn weak_refs(&self) -> Seq<usize> {
        Seq::empty()
    }

    fn trace(&self, tracer: &mut Tracer) {
        proof {
            lemma_nothing_reported(*tracer);
        }
    }
}

/// A string owns no handle.
impl Trace for String {
    open spec fn strong_refs(&self) -> Seq<usize> {
        Seq::empty()
    }

    open spec fn weak_refs(&self) -> Seq<usize> {
        Seq::empty()
    }

    fn trace(&self, tracer: &mut Tracer) {
        proof {
            lemma_nothing_reported(*tracer);
        }
    }
}

/// A value behind a counted pointer of the standard library is not looked
/// into: such a pointer is no handle of a heap.
impl<T> Trace for Rc<T> {
    open spec fn strong_refs(&self) -> Seq<usize> {
        Seq::empty()
    }

    open spec fn weak_refs(&self) -> Seq<usize> {
        Seq::empty()
    }

    fn trace(&self, tracer: &mut Tracer) {
        proof {
            lemma_nothing_reported(*tracer);
        }
    }
}

/// A value behind a shared pointer of the standard library is not looked
/// into: such a pointer is no handle of a heap.
impl<T> Trace for Arc<T> {
    open spec fn strong_refs(&self) -> Seq<usize> {
        Seq::empty()
    }

    open spec fn weak_refs(&self) -> Seq<usize> {
        Seq::empty()
    }

    fn trace(&self, tracer: &mut Tracer) {
        proof {
            lemma_nothing_reported(*tracer);
        }
    }
}

/// A reference owns what the value behind it owns.
impl<T: Trace> Trace for &T {
    open spec fn strong_refs(&self) -> Seq<usize> {
        (**self).strong_refs()
    }

    open spec fn weak_refs(&self) -> Seq<usize> {
        (**self).weak_refs()
    }

    fn trace(&self, tracer: &mut Tracer) {
        (**self).trace(tracer)
    }
}

/// A box owns what the value in it owns.
impl<T: Trace> Trace for Box<T> {
    open spec fn strong_refs(&self) -> Seq<usize> {
        (**self).strong_refs()
    }

    open spec fn weak_refs(&self) -> Seq<usize> {
        (**self).weak_refs()
    }

    fn trace(&self, tracer: &mut Tracer) {
        (**self).trace(tracer)
    }
}

/// An option owns what its value owns, if it has one.
impl<T: Trace> Trace for Option<T> {
    open spec fn strong_refs(&self) -> Seq<usize> {
        match self {
            Some(t) => t.strong_refs(),
            None => Seq::empty(),
        }
    }

    open spec fn weak_refs(&self) -> Seq<usize> {
        match self {
            Some(t) => t.weak_refs(),
            None => Seq::empty(),
        }
    }

    fn trace(&self, tracer: &mut Tracer) {
        match self {
            Some(t) => t.trace(tracer),
            None => {
                proof {
                    lemma_nothing_reported(*tracer);
                }
            },
        }
    }
}

/// A result owns what its value owns, be it the success or the error.
impl<T: Trace, U: Trace> Trace for Result<T, U> {
    open spec fn strong_refs(&self) -> Seq<usize> {
        match self {
            Ok(t) => t.strong_refs(),
            Err(u) => u.strong_refs(),
        }
    }

    open spec fn weak_refs(&self) -> Seq<usize> {
        match self {
            Ok(t) => t.weak_refs(),
            Err(u) => u.weak_refs(),
        }
    }

    fn trace(&self, tracer: &mut Tracer) {
        match self {
            Ok(t) => t.trace(tracer),
            Err(u) => u.trace(tracer),
        }
    }
}

/// The strong handles that the elements of `s` own, in order.
pub open spec fn strong_refs_of<T: Trace>(s: Seq<T>) -> Seq<usize>
    decreases s.len(),
{
    if s.len() == 0 {
        Seq::empty()
    } else {
        strong_refs_of(s.drop_last()) + s.last().strong_refs()
    }
}

/// The weak handles that the elements of `s` own, in order.
pub open spec fn weak_refs_of<T: Trace>(s: Seq<T>) -> Seq<usize>
    decreases s.len(),
{
    if s.len() == 0 {
        Seq::empty()
    } else {
        weak_refs_of(s.drop_last()) + s.last().weak_refs()
    }
}

/// A vector owns what its elements own, in order.
impl<T: Trace> Trace for Vec<T> {
    open spec fn strong_refs(&self) -> Seq<usize> {
        strong_refs_of(self@)
    }

    open spec fn weak_refs(&self) -> Seq<usize> {
        weak_refs_of(self@)
    }

    fn trace(&self, tracer: &mut Tracer) {
        let mut i: usize = 0;
        proof {
            lemma_nothing_reported(*tracer);
            assert(self@.take(0) =~= Seq::<T>::empty());
        }
        while i < self.len()
            invariant
                0 <= i <= self.len(),
                tracer.strong() == old(tracer).strong() + strong_refs_of(self@.take(i as int)),
                tracer.weak() == old(tracer).weak() + weak_refs_of(self@.take(i as int)),
            decreases self.len() - i,
        {
            let ghost before = *tracer;
            self[i].trace(tracer);
            proof {
                let done = self@.take(i as int);
                let next = self@.take(i + 1);
                assert(next.drop_last() =~= done);
                assert(next.last() == self@[i as int]);
                lemma_reported_twice(old(tracer).strong(), strong_refs_of(done), self@[i as int].strong_refs());
                lemma_reported_twice(old(tracer).weak(), weak_refs_of(done), self@[i as int].weak_refs());
            }
            i += 1;
        }
        proof {
            assert(self@.take(self.len() as int) =~= self@);
        }
    }
}

/// An array owns what its elements own, in order.
impl<T: Trace, const N: usize> Trace for [T; N] {
    open spec fn strong_refs(&self) -> Seq<usize> {
        strong_refs_of(self@)
    }

    open spec fn weak_refs(&self) -> Seq<usize> {
        weak_refs_of(self@)
    }

    fn trace(&self, tracer: &mut Tracer) {
        let mut i: usize = 0;
        proof {
            lemma_nothing_reported(*tracer);
            assert(self@.take(0) =~= Seq::<T>::empty());
        }
        while i < N
            invariant
                0 <= i <= N,
                self@.len() == N,
                tracer.strong() == old(tracer).strong() + strong_refs_of(self@.take(i as int)),
                tracer.weak() == old(tracer).weak() + weak_refs_of(self@.take(i as int)),
            decreases N - i,
        {
            self[i].trace(tracer);
            proof {
                let done = self@.take(i as int);
                let next = self@.take(i + 1);
                assert(next.drop_last() =~= done);
                assert(next.last() == self@[i as int]);
                lemma_reported_twice(old(tracer).strong(), strong_refs_of(done), self@[i as int].strong_refs());
                lemma_reported_twice(old(tracer).weak(), weak_refs_of(done), self@[i as int].weak_refs());
            }
            i += 1;
        }
        proof {
            assert(self@.take(N as int) =~= self@);
        }
    }
}

/// A tuple of one owns what its part owns.
impl<A: Trace> Trace for (A,) {
    open spec fn strong_refs(&self) -> Seq<usize> {
        self.0.strong_refs()
    }

    open spec fn weak_refs(&self) -> Seq<usize> {
        self.0.weak_refs()
    }

    fn trace(&self, tracer: &mut Tracer) {
        self.0.trace(tracer);
    }
}

/// A pair owns what its parts own, in order.
impl<A: Trace, B: Trace> Trace for (A, B) {
    open spec fn strong_refs(&self) -> Seq<usize> {
        self.0.strong_refs() + self.1.strong_refs()
    }

    open spec fn weak_refs(&self) -> Seq<usize> {
        self.0.weak_refs() + self.1.weak_refs()
    }

    fn trace(&self, tracer: &mut Tracer) {
        self.0.trace(tracer);
        self.1.trace(tracer);
        proof {
            lemma_reported_twice(old(tracer).strong(), self.0.strong_refs(), self.1.strong_refs());
            lemma_reported_twice(old(tracer).weak(), self.0.weak_refs(), self.1.weak_refs());
        }
    }
}

/// A tuple of three owns what its parts own, in order.
impl<A: Trace, B: Trace, C: Trace> Trace for (A, B, C) {
    open spec fn strong_refs(&self) -> Seq<usize> {
        self.0.strong_refs() + self.1.strong_refs() + self.2.strong_refs()
    }

    open spec fn weak_refs(&self) -> Seq<usize> {
        self.0.weak_refs() + self.1.weak_refs() + self.2.weak_refs()
    }

    fn trace(&self, tracer: &mut Tracer) {
        self.0.trace(tracer);
        self.1.trace(tracer);
        self.2.trace(tracer);
        proof {
            lemma_reported_twice(old(tracer).strong(), self.0.strong_refs(), self.1.strong_refs());
            lemma_reported_twice(old(tracer).strong(), self.0.strong_refs() + self.1.strong_refs(), self.2.strong_refs());
            lemma_reported_twice(old(tracer).weak(), self.0.weak_refs(), self.1.weak_refs());
            lemma_reported_twice(old(tracer).weak(), self.0.weak_refs() + self.1.weak_refs(), self.2.weak_refs());
        }
    }
}

/// A tuple of four owns what its parts own, in order.
impl<A: Trace, B: Trace, C: Trace, D: Trace> Trace for (A, B, C, D) {
    open spec fn strong_refs(&self) -> Seq<usize> {
        self.0.strong_refs() + self.1.strong_refs() + self.2.strong_refs() + self.3.strong_refs()
    }

    open spec fn weak_refs(&self) -> Seq<usize> {
        self.0.weak_refs() + self.1.weak_refs() + self.2.weak_refs() + self.3.weak_refs()
    }

    fn trace(&self, tracer: &mut Tracer) {
        self.0.trace(tracer);
        self.1.trace(tracer);
        self.2.trace(tracer);
        self.3.trace(tracer);
        proof {
            lemma_reported_twice(old(tracer).strong(), self.0.strong_refs(), self.1.strong_refs());
            lemma_reported_twice(old(tracer).strong(), self.0.strong_refs() + self.1.strong_refs(), self.2.strong_refs());
            lemma_reported_twice(old(tracer).strong(), self.0.strong_refs() + self.1.strong_refs() + self.2.strong_refs(), self.3.strong_refs());
            lemma_reported_twice(old(tracer).weak(), self.0.weak_refs(), self.1.weak_refs());
            lemma_reported_twice(old(tracer).weak(), self.0.weak_refs() + self.1.weak_refs(), self.2.weak_refs());
            lemma_reported_twice(old(tracer).weak(), self.0.weak_refs() + self.1.weak_refs() + self.2.weak_refs(), self.3.weak_refs());
        }
    }
}

/// A tuple of five owns what its parts own, in order.
impl<A: Trace, B: Trace, C: Trace, D: Trace, E: Trace> Trace for (A, B, C, D, E) {
    open spec fn strong_refs(&self) -> Seq<usize> {
        self.0.strong_refs() + self.1.strong_refs() + self.2.strong_refs() + self.3.strong_refs() + self.4.strong_refs()
    }

    open spec fn weak_refs(&self) -> Seq<usize> {
        self.0.weak_refs() + self.1.weak_refs() + self.2.weak_refs() + self.3.weak_refs() + self.4.weak_refs()
    }

    fn trace(&self, tracer: &mut Tracer) {
        self.0.trace(tracer);
        self.1.trace(tracer);
        self.2.trace(tracer);
        self.3.trace(tracer);
        self.4.trace(tracer);
        proof {
            lemma_reported_twice(old(tracer).strong(), self.0.strong_refs(), self.1.strong_refs());
            lemma_reported_twice(old(tracer).strong(), self.0.strong_refs() + self.1.strong_refs(), self.2.strong_refs());
            lemma_reported_twice(old(tracer).strong(), self.0.strong_refs() + self.1.strong_refs() + self.2.strong_refs(), self.3.strong_refs());
            lemma_reported_twice(old(tracer).strong(), self.0.strong_refs() + self.1.strong_refs() + self.2.strong_refs() + self.3.strong_refs(), self.4.strong_refs());
            lemma_reported_twice(old(tracer).weak(), self.0.weak_refs(), self.1.weak_refs());
            lemma_reported_twice(old(tracer).weak(), self.0.weak_refs() + self.1.weak_refs(), self.2.weak_refs());
            lemma_reported_twice(old(tracer).weak(), self.0.weak_refs() + self.1.weak_refs() + self.2.weak_refs(), self.3.weak_refs());
            lemma_reported_twice(old(tracer).weak(), self.0.weak_refs() + self.1.weak_refs() + self.2.weak_refs() + self.3.weak_refs(), self.4.weak_refs());
        }
    }
}

/// A tuple of six owns what its parts own, in order.
impl<A: Trace, B: Trace, C: Trace, D: Trace, E: Trace, F: Trace> Trace for (A, B, C, D, E, F) {
    open spec fn strong_refs(&self) -> Seq<usize> {
        self.0.strong_refs() + self.1.strong_refs() + self.2.strong_refs() + self.3.strong_refs() + self.4.strong_refs() + self.5.strong_refs()
    }

    open spec fn weak_refs(&self) -> Seq<usize> {
        self.0.weak_refs() + self.1.weak_refs() + self.2.weak_refs() + self.3.weak_refs() + self.4.weak_refs() + self.5.weak_refs()
    }

    fn trace(&self, tracer: &mut Tracer) {
        self.0.trace(tracer);
        self.1.trace(tracer);
        self.2.trace(tracer);
        self.3.trace(tracer);
        self.4.trace(tracer);
        self.5.trace(tracer);
        proof {
            lemma_reported_twice(old(tracer).strong(), self.0.strong_refs(), self.1.strong_refs());
            lemma_reported_twice(old(tracer).strong(), self.0.strong_refs() + self.1.strong_refs(), self.2.strong_refs());
            lemma_reported_twice(old(tracer).strong(), self.0.strong_refs() + self.1.strong_refs() + self.2.strong_refs(), self.3.strong_refs());
            lemma_reported_twice(old(tracer).strong(), self.0.strong_refs() + self.1.strong_refs() + self.2.strong_refs() + self.3.strong_refs(), self.4.strong_refs());
            lemma_reported_twice(old(tracer).strong(), self.0.strong_refs() + self.1.strong_refs() + self.2.strong_refs() + self.3.strong_refs() + self.4.strong_refs(), self.5.strong_refs());
            lemma_reported_twice(old(tracer).weak(), self.0.weak_refs(), self.1.weak_refs());
            lemma_reported_twice(old(tracer).weak(), self.0.weak_refs() + self.1.weak_refs(), self.2.weak_refs());
            lemma_reported_twice(old(tracer).weak(), self.0.weak_refs() + self.1.weak_refs() + self.2.weak_refs(), self.3.weak_refs());
            lemma_reported_twice(old(tracer).weak(), self.0.weak_refs() + self.1.weak_refs() + self.2.weak_refs() + self.3.weak_refs(), self.4.weak_refs());
            lemma_reported_twice(old(tracer).weak(), self.0.weak_refs() + self.1.weak_refs() + self.2.weak_refs() + self.3.weak_refs() + self.4.weak_refs(), self.5.weak_refs());
        }
    }
}

/// A tuple of seven owns what its parts own, in order.
impl<A: Trace, B: Trace, C: Trace, D: Trace, E: Trace, F: Trace, G: Trace> Trace for (A, B, C, D, E, F, G) {
    open spec fn strong_refs(&self) -> Seq<usize> {
        self.0.strong_refs() + self.1.strong_refs() + self.2.strong_refs() + self.3.strong_refs() + self.4.strong_refs() + self.5.strong_refs() + self.6.strong_refs()
    }

    open spec fn weak_refs(&self) -> Seq<usize> {
        self.0.weak_refs() + self.1.weak_refs() + self.2.weak_refs() + self.3.weak_refs() + self.4.weak_refs() + self.5.weak_refs() + self.6.weak_refs()
    }

    fn trace(&self, tracer: &mut Tracer) {
        self.0.trace(tracer);
        self.1.trace(tracer);
        self.2.trace(tracer);
        self.3.trace(tracer);
        self.4.trace(tracer);
        self.5.trace(tracer);
        self.6.trace(tracer);
        proof {
            lemma_reported_twice(old(tracer).strong(), self.0.strong_refs(), self.1.strong_refs());
            lemma_reported_twice(old(tracer).strong(), self.0.strong_refs() + self.1.strong_refs(), self.2.strong_refs());
            lemma_reported_twice(old(tracer).strong(), self.0.strong_refs() + self.1.strong_refs() + self.2.strong_refs(), self.3.strong_refs());
            lemma_reported_twice(old(tracer).strong(), self.0.strong_refs() + self.1.strong_refs() + self.2.strong_refs() + self.3.strong_refs(), self.4.strong_refs());
            lemma_reported_twice(old(tracer).strong(), self.0.strong_refs() + self.1.strong_refs() + self.2.strong_refs() + self.3.strong_refs() + self.4.strong_refs(), self.5.strong_refs());
            lemma_reported_twice(old(tracer).strong(), self.0.strong_refs() + self.1.strong_refs() + self.2.strong_refs() + self.3.strong_refs() + self.4.strong_refs() + self.5.strong_refs(), self.6.strong_refs());
            lemma_reported_twice(old(tracer).weak(), self.0.weak_refs(), self.1.weak_refs());
            lemma_reported_twice(old(tracer).weak(), self.0.weak_refs() + self.1.weak_refs(), self.2.weak_refs());
            lemma_reported_twice(old(tracer).weak(), self.0.weak_refs() + self.1.weak_refs() + self.2.weak_refs(), self.3.weak_refs());
            lemma_reported_twice(old(tracer).weak(), self.0.weak_refs() + self.1.weak_refs() + self.2.weak_refs() + self.3.weak_refs(), self.4.weak_refs());
            lemma_reported_twice(old(tracer).weak(), self.0.weak_refs() + self.1.weak_refs() + self.2.weak_refs() + self.3.weak_refs() + self.4.weak_refs(), self.5.weak_refs());
            lemma_reported_twice(old(tracer).weak(), self.0.weak_refs() + self.1.weak_refs() + self.2.weak_refs() + self.3.weak_refs() + self.4.weak_refs() + self.5.weak_refs(), self.6.weak_refs());
        }
    }
}

/// A tuple of eight owns what its parts own, in order.
impl<A: Trace, B: Trace, C: Trace, D: Trace, E: Trace, F: Trace, G: Trace, H: Trace> Trace for (A, B, C, D, E, F, G, H) {
    open spec fn strong_refs(&self) -> Seq<usize> {
        self.0.strong_refs() + self.1.strong_refs() + self.2.strong_refs() + self.3.strong_refs() + self.4.strong_refs() + self.5.strong_refs() + self.6.strong_refs() + self.7.strong_refs()
    }

    open spec fn weak_refs(&self) -> Seq<usize> {
        self.0.weak_refs() + self.1.weak_refs() + self.2.weak_refs() + self.3.weak_refs() + self.4.weak_refs() + self.5.weak_refs() + self.6.weak_refs() + self.7.weak_refs()
    }

    fn trace(&self, tracer: &mut Tracer) {
        self.0.trace(tracer);
        self.1.trace(tracer);
        self.2.trace(tracer);
        self.3.trace(tracer);
        self.4.trace(tracer);
        self.5.trace(tracer);
        self.6.trace(tracer);
        self.7.trace(tracer);
        proof {
            lemma_reported_twice(old(tracer).strong(), self.0.strong_refs(), self.1.strong_refs());
            lemma_reported_twice(old(tracer).strong(), self.0.strong_refs() + self.1.strong_refs(), self.2.strong_refs());
            lemma_reported_twice(old(tracer).strong(), self.0.strong_refs() + self.1.strong_refs() + self.2.strong_refs(), self.3.strong_refs());
            lemma_reported_twice(old(tracer).strong(), self.0.strong_refs() + self.1.strong_refs() + self.2.strong_refs() + self.3.strong_refs(), self.4.strong_refs());
            lemma_reported_twice(old(tracer).strong(), self.0.strong_refs() + self.1.strong_refs() + self.2.strong_refs() + self.3.strong_refs() + self.4.strong_refs(), self.5.strong_refs());
            lemma_reported_twice(old(tracer).strong(), self.0.strong_refs() + self.1.strong_refs() + self.2.strong_refs() + self.3.strong_refs() + self.4.strong_refs() + self.5.strong_refs(), self.6.strong_refs());
            lemma_reported_twice(old(tracer).strong(), self.0.strong_refs() + self.1.strong_refs() + self.2.strong_refs() + self.3.strong_refs() + self.4.strong_refs() + self.5.strong_refs() + self.6.strong_refs(), self.7.strong_refs());
            lemma_reported_twice(old(tracer).weak(), self.0.weak_refs(), self.1.weak_refs());
            lemma_reported_twice(old(tracer).weak(), self.0.weak_refs() + self.1.weak_refs(), self.2.weak_refs());
            lemma_reported_twice(old(tracer).weak(), self.0.weak_refs() + self.1.weak_refs() + self.2.weak_refs(), self.3.weak_refs());
            lemma_reported_twice(old(tracer).weak(), self.0.weak_refs() + self.1.weak_refs() + self.2.weak_refs() + self.3.weak_refs(), self.4.weak_refs());
            lemma_reported_twice(old(tracer).weak(), self.0.weak_refs() + self.1.weak_refs() + self.2.weak_refs() + self.3.weak_refs() + self.4.weak_refs(), self.5.weak_refs());
            lemma_reported_twice(old(tracer).weak(), self.0.weak_refs() + self.1.weak_refs() + self.2.weak_refs() + self.3.weak_refs() + self.4.weak_refs() + self.5.weak_refs(), self.6.weak_refs());
            lemma_reported_twice(old(tracer).weak(), self.0.weak_refs() + self.1.weak_refs() + self.2.weak_refs() + self.3.weak_refs() + self.4.weak_refs() + self.5.weak_refs() + self.6.weak_refs(), self.7.weak_refs());
        }
    }
}

/// A tuple of nine owns what its parts own, in order.
impl<A: Trace, B: Trace, C: Trace, D: Trace, E: Trace, F: Trace, G: Trace, H: Trace, I: Trace> Trace for (A, B, C, D, E, F, G, H, I) {
    open spec fn strong_refs(&self) -> Seq<usize> {
        self.0.strong_refs() + self.1.strong_refs() + self.2.strong_refs() + self.3.strong_refs() + self.4.strong_refs() + self.5.strong_refs() + self.6.strong_refs() + self.7.strong_refs() + self.8.strong_refs()
    }

    open spec fn weak_refs(&self) -> Seq<usize> {
        self.0.weak_refs() + self.1.weak_refs() + self.2.weak_refs() + self.3.weak_refs() + self.4.weak_refs() + self.5.weak_refs() + self.6.weak_refs() + self.7.weak_refs() + self.8.weak_refs()
    }

    fn trace(&self, tracer: &mut Tracer) {
        self.0.trace(tracer);
        self.1.trace(tracer);
        self.2.trace(tracer);
        self.3.trace(tracer);
        self.4.trace(tracer);
        self.5.trace(tracer);
        self.6.trace(tracer);
        self.7.trace(tracer);
        self.8.trace(tracer);
        proof {
            lemma_reported_twice(old(tracer).strong(), self.0.strong_refs(), self.1.strong_refs());
            lemma_reported_twice(old(tracer).strong(), self.0.strong_refs() + self.1.strong_refs(), self.2.strong_refs());
            lemma_reported_twice(old(tracer).strong(), self.0.strong_refs() + self.1.strong_refs() + self.2.strong_refs(), self.3.strong_refs());
            lemma_reported_twice(old(tracer).strong(), self.0.strong_refs() + self.1.strong_refs() + self.2.strong_refs() + self.3.strong_refs(), self.4.strong_refs());
            lemma_reported_twice(old(tracer).strong(), self.0.strong_refs() + self.1.strong_refs() + self.2.strong_refs() + self.3.strong_refs() + self.4.strong_refs(), self.5.strong_refs());
            lemma_reported_twice(old(tracer).strong(), self.0.strong_refs() + self.1.strong_refs() + self.2.strong_refs() + self.3.strong_refs() + self.4.strong_refs() + self.5.strong_refs(), self.6.strong_refs());
            lemma_reported_twice(old(tracer).strong(), self.0.strong_refs() + self.1.strong_refs() + self.2.strong_refs() + self.3.strong_refs() + self.4.strong_refs() + self.5.strong_refs() + self.6.strong_refs(), self.7.strong_refs());
            lemma_reported_twice(old(tracer).strong(), self.0.strong_refs() + self.1.strong_refs() + self.2.strong_refs() + self.3.strong_refs() + self.4.strong_refs() + self.5.strong_refs() + self.6.strong_refs() + self.7.strong_refs(), self.8.strong_refs());
            lemma_reported_twice(old(tracer).weak(), self.0.weak_refs(), self.1.weak_refs());
            lemma_reported_twice(old(tracer).weak(), self.0.weak_refs() + self.1.weak_refs(), self.2.weak_refs());
            lemma_reported_twice(old(tracer).weak(), self.0.weak_refs() + self.1.weak_refs() + self.2.weak_refs(), self.3.weak_refs());
            lemma_reported_twice(old(tracer).weak(), self.0.weak_refs() + self.1.weak_refs() + self.2.weak_refs() + self.3.weak_refs(), self.4.weak_refs());
            lemma_reported_twice(old(tracer).weak(), self.0.weak_refs() + self.1.weak_refs() + self.2.weak_refs() + self.3.weak_refs() + self.4.weak_refs(), self.5.weak_refs());
            lemma_reported_twice(old(tracer).weak(), self.0.weak_refs() + self.1.weak_refs() + self.2.weak_refs() + self.3.weak_refs() + self.4.weak_refs() + self.5.weak_refs(), self.6.weak_refs());
            lemma_reported_twice(old(tracer).weak(), self.0.weak_refs() + self.1.weak_refs() + self.2.weak_refs() + self.3.weak_refs() + self.4.weak_refs() + self.5.weak_refs() + self.6.weak_refs(), self.7.weak_refs());
            lemma_reported_twice(old(tracer).weak(), self.0.weak_refs() + self.1.weak_refs() + self.2.weak_refs() + self.3.weak_refs() + self.4.weak_refs() + self.5.weak_refs() + self.6.weak_refs() + self.7.weak_refs(), self.8.weak_refs());
        }
    }
}

/// A tuple of ten owns what its parts own, in order.
impl<A: Trace, B: Trace, C: Trace, D: Trace, E: Trace, F: Trace, G: Trace, H: Trace, I: Trace, J: Trace> Trace for (A, B, C, D, E, F, G, H, I, J) {
    open spec fn strong_refs(&self) -> Seq<usize> {
        self.0.strong_refs() + self.1.strong_refs() + self.2.strong_refs() + self.3.strong_refs() + self.4.strong_refs() + self.5.strong_refs() + self.6.strong_refs() + self.7.strong_refs() + self.8.strong_refs() + self.9.strong_refs()
    }

    open spec fn weak_refs(&self) -> Seq<usize> {
        self.0.weak_refs() + self.1.weak_refs() + self.2.weak_refs() + self.3.weak_refs() + self.4.weak_refs() + self.5.weak_refs() + self.6.weak_refs() + self.7.weak_refs() + self.8.weak_refs() + self.9.weak_refs()
    }

    fn trace(&self, tracer: &mut Tracer) {
        self.0.trace(tracer);
        self.1.trace(tracer);
        self.2.trace(tracer);
        self.3.trace(tracer);
        self.4.trace(tracer);
        self.5.trace(tracer);
        self.6.trace(tracer);
        self.7.trace(tracer);
        self.8.trace(tracer);
        self.9.trace(tracer);
        proof {
            lemma_reported_twice(old(tracer).strong(), self.0.strong_refs(), self.1.strong_refs());
            lemma_reported_twice(old(tracer).strong(), self.0.strong_refs() + self.1.strong_refs(), self.2.strong_refs());
            lemma_reported_twice(old(tracer).strong(), self.0.strong_refs() + self.1.strong_refs() + self.2.strong_refs(), self.3.strong_refs());
            lemma_reported_twice(old(tracer).strong(), self.0.strong_refs() + self.1.strong_refs() + self.2.strong_refs() + self.3.strong_refs(), self.4.strong_refs());
            lemma_reported_twice(old(tracer).strong(), self.0.strong_refs() + self.1.strong_refs() + self.2.strong_refs() + self.3.strong_refs() + self.4.strong_refs(), self.5.strong_refs());
            lemma_reported_twice(old(tracer).strong(), self.0.strong_refs() + self.1.strong_refs() + self.2.strong_refs() + self.3.strong_refs() + self.4.strong_refs() + self.5.strong_refs(), self.6.strong_refs());
            lemma_reported_twice(old(tracer).strong(), self.0.strong_refs() + self.1.strong_refs() + self.2.strong_refs() + self.3.strong_refs() + self.4.strong_refs() + self.5.strong_refs() + self.6.strong_refs(), self.7.strong_refs());
            lemma_reported_twice(old(tracer).strong(), self.0.strong_refs() + self.1.strong_refs() + self.2.strong_refs() + self.3.strong_refs() + self.4.strong_refs() + self.5.strong_refs() + self.6.strong_refs() + self.7.strong_refs(), self.8.strong_refs());
            lemma_reported_twice(old(tracer).strong(), self.0.strong_refs() + self.1.strong_refs() + self.2.strong_refs() + self.3.strong_refs() + self.4.strong_refs() + self.5.strong_refs() + self.6.strong_refs() + self.7.strong_refs() + self.8.strong_refs(), self.9.strong_refs());
            lemma_reported_twice(old(tracer).weak(), self.0.weak_refs(), self.1.weak_refs());
            lemma_reported_twice(old(tracer).weak(), self.0.weak_refs() + self.1.weak_refs(), self.2.weak_refs());
            lemma_reported_twice(old(tracer).weak(), self.0.weak_refs() + self.1.weak_refs() + self.2.weak_refs(), self.3.weak_refs());
            lemma_reported_twice(old(tracer).weak(), self.0.weak_refs() + self.1.weak_refs() + self.2.weak_refs() + self.3.weak_refs(), self.4.weak_refs());
            lemma_reported_twice(old(tracer).weak(), self.0.weak_refs() + self.1.weak_refs() + self.2.weak_refs() + self.3.weak_refs() + self.4.weak_refs(), self.5.weak_refs());
            lemma_reported_twice(old(tracer).weak(), self.0.weak_refs() + self.1.weak_refs() + self.2.weak_refs() + self.3.weak_refs() + self.4.weak_refs() + self.5.weak_refs(), self.6.weak_refs());
            lemma_reported_twice(old(tracer).weak(), self.0.weak_refs() + self.1.weak_refs() + self.2.weak_refs() + self.3.weak_refs() + self.4.weak_refs() + self.5.weak_refs() + self.6.weak_refs(), self.7.weak_refs());
            lemma_reported_twice(old(tracer).weak(), self.0.weak_refs() + self.1.weak_refs() + self.2.weak_refs() + self.3.weak_refs() + self.4.weak_refs() + self.5.weak_refs() + self.6.weak_refs() + self.7.weak_refs(), self.8.weak_refs());
            lemma_reported_twice(old(tracer).weak(), self.0.weak_refs() + self.1.weak_refs() + self.2.weak_refs() + self.3.weak_refs() + self.4.weak_refs() + self.5.weak_refs() + self.6.weak_refs() + self.7.weak_refs() + self.8.weak_refs(), self.9.weak_refs());
        }
    }
}

/// A tuple of eleven owns what its parts own, in order.
impl<A: Trace, B: Trace, C: Trace, D: Trace, E: Trace, F: Trace, G: Trace, H: Trace, I: Trace, J: Trace, K: Trace> Trace for (A, B, C, D, E, F, G, H, I, J, K) {
    open spec fn strong_refs(&self) -> Seq<usize> {
        self.0.strong_refs() + self.1.strong_refs() + self.2.strong_refs() + self.3.strong_refs() + self.4.strong_refs() + self.5.strong_refs() + self.6.strong_refs() + self.7.strong_refs() + self.8.strong_refs() + self.9.strong_refs() + self.10.strong_refs()
    }

    open spec fn weak_refs(&self) -> Seq<usize> {
        self.0.weak_refs() + self.1.weak_refs() + self.2.weak_refs() + self.3.weak_refs() + self.4.weak_refs() + self.5.weak_refs() + self.6.weak_refs() + self.7.weak_refs() + self.8.weak_refs() + self.9.weak_refs() + self.10.weak_refs()
    }

    fn trace(&self, tracer: &mut Tracer) {
        self.0.trace(tracer);
        self.1.trace(tracer);
        self.2.trace(tracer);
        self.3.trace(tracer);
        self.4.trace(tracer);
        self.5.trace(tracer);
        self.6.trace(tracer);
        self.7.trace(tracer);
        self.8.trace(tracer);
        self.9.trace(tracer);
        self.10.trace(tracer);
        proof {
            lemma_reported_twice(old(tracer).strong(), self.0.strong_refs(), self.1.strong_refs());
            lemma_reported_twice(old(tracer).strong(), self.0.strong_refs() + self.1.strong_refs(), self.2.strong_refs());
            lemma_reported_twice(old(tracer).strong(), self.0.strong_refs() + self.1.strong_refs() + self.2.strong_refs(), self.3.strong_refs());
            lemma_reported_twice(old(tracer).strong(), self.0.strong_refs() + self.1.strong_refs() + self.2.strong_refs() + self.3.strong_refs(), self.4.strong_refs());
            lemma_reported_twice(old(tracer).strong(), self.0.strong_refs() + self.1.strong_refs() + self.2.strong_refs() + self.3.strong_refs() + self.4.strong_refs(), self.5.strong_refs());
            lemma_reported_twice(old(tracer).strong(), self.0.strong_refs() + self.1.strong_refs() + self.2.strong_refs() + self.3.strong_refs() + self.4.strong_refs() + self.5.strong_refs(), self.6.strong_refs());
            lemma_reported_twice(old(tracer).strong(), self.0.strong_refs() + self.1.strong_refs() + self.2.strong_refs() + self.3.strong_refs() + self.4.strong_refs() + self.5.strong_refs() + self.6.strong_refs(), self.7.strong_refs());
            lemma_reported_twice(old(tracer).strong(), self.0.strong_refs() + self.1.strong_refs() + self.2.strong_refs() + self.3.strong_refs() + self.4.strong_refs() + self.5.strong_refs() + self.6.strong_refs() + self.7.strong_refs(), self.8.strong_refs());
            lemma_reported_twice(old(tracer).strong(), self.0.strong_refs() + self.1.strong_refs() + self.2.strong_refs() + self.3.strong_refs() + self.4.strong_refs() + self.5.strong_refs() + self.6.strong_refs() + self.7.strong_refs() + self.8.strong_refs(), self.9.strong_refs());
            lemma_reported_twice(old(tracer).strong(), self.0.strong_refs() + self.1.strong_refs() + self.2.strong_refs() + self.3.strong_refs() + self.4.strong_refs() + self.5.strong_refs() + self.6.strong_refs() + self.7.strong_refs() + self.8.strong_refs() + self.9.strong_refs(), self.10.strong_refs());
            lemma_reported_twice(old(tracer).weak(), self.0.weak_refs(), self.1.weak_refs());
            lemma_reported_twice(old(tracer).weak(), self.0.weak_refs() + self.1.weak_refs(), self.2.weak_refs());
            lemma_reported_twice(old(tracer).weak(), self.0.weak_refs() + self.1.weak_refs() + self.2.weak_refs(), self.3.weak_refs());
            lemma_reported_twice(old(tracer).weak(), self.0.weak_refs() + self.1.weak_refs() + self.2.weak_refs() + self.3.weak_refs(), self.4.weak_refs());
            lemma_reported_twice(old(tracer).weak(), self.0.weak_refs() + self.1.weak_refs() + self.2.weak_refs() + self.3.weak_refs() + self.4.weak_refs(), self.5.weak_refs());
            lemma_reported_twice(old(tracer).weak(), self.0.weak_refs() + self.1.weak_refs() + self.2.weak_refs() + self.3.weak_refs() + self.4.weak_refs() + self.5.weak_refs(), self.6.weak_refs());
            lemma_reported_twice(old(tracer).weak(), self.0.weak_refs() + self.1.weak_refs() + self.2.weak_refs() + self.3.weak_refs() + self.4.weak_refs() + self.5.weak_refs() + self.6.weak_refs(), self.7.weak_refs());
            lemma_reported_twice(old(tracer).weak(), self.0.weak_refs() + self.1.weak_refs() + self.2.weak_refs() + self.3.weak_refs() + self.4.weak_refs() + self.5.weak_refs() + self.6.weak_refs() + self.7.weak_refs(), self.8.weak_refs());
            lemma_reported_twice(old(tracer).weak(), self.0.weak_refs() + self.1.weak_refs() + self.2.weak_refs() + self.3.weak_refs() + self.4.weak_refs() + self.5.weak_refs() + self.6.weak_refs() + self.7.weak_refs() + self.8.weak_refs(), self.9.weak_refs());
            lemma_reported_twice(old(tracer).weak(), self.0.weak_refs() + self.1.weak_refs() + self.2.weak_refs() + self.3.weak_refs() + self.4.weak_refs() + self.5.weak_refs() + self.6.weak_refs() + self.7.weak_refs() + self.8.weak_refs() + self.9.weak_refs(), self.10.weak_refs());
        }
    }
}

/// A tuple of twelve owns what its parts own, in order.
impl<A: Trace, B: Trace, C: Trace, D: Trace, E: Trace, F: Trace, G: Trace, H: Trace, I: Trace, J: Trace, K: Trace, L: Trace> Trace for (A, B, C, D, E, F, G, H, I, J, K, L) {
    open spec fn strong_refs(&self) -> Seq<usize> {
        self.0.strong_refs() + self.1.strong_refs() + self.2.strong_refs() + self.3.strong_refs() + self.4.strong_refs() + self.5.strong_refs() + self.6.strong_refs() + self.7.strong_refs() + self.8.strong_refs() + self.9.strong_refs() + self.10.strong_refs() + self.11.strong_refs()
    }

    open spec fn weak_refs(&self) -> Seq<usize> {
        self.0.weak_refs() + self.1.weak_refs() + self.2.weak_refs() + self.3.weak_refs() + self.4.weak_refs() + self.5.weak_refs() + self.6.weak_refs() + self.7.weak_refs() + self.8.weak_refs() + self.9.weak_refs() + self.10.weak_refs() + self.11.weak_refs()
    }

    fn trace(&self, tracer: &mut Tracer) {
        self.0.trace(tracer);
        self.1.trace(tracer);
        self.2.trace(tracer);
        self.3.trace(tracer);
        self.4.trace(tracer);
        self.5.trace(tracer);
        self.6.trace(tracer);
        self.7.trace(tracer);
        self.8.trace(tracer);
        self.9.trace(tracer);
        self.10.trace(tracer);
        self.11.trace(tracer);
        proof {
            lemma_reported_twice(old(tracer).strong(), self.0.strong_refs(), self.1.strong_refs());
            lemma_reported_twice(old(tracer).strong(), self.0.strong_refs() + self.1.strong_refs(), self.2.strong_refs());
            lemma_reported_twice(old(tracer).strong(), self.0.strong_refs() + self.1.strong_refs() + self.2.strong_refs(), self.3.strong_refs());
            lemma_reported_twice(old(tracer).strong(), self.0.strong_refs() + self.1.strong_refs() + self.2.strong_refs() + self.3.strong_refs(), self.4.strong_refs());
            lemma_reported_twice(old(tracer).strong(), self.0.strong_refs() + self.1.strong_refs() + self.2.strong_refs() + self.3.strong_refs() + self.4.strong_refs(), self.5.strong_refs());
            lemma_reported_twice(old(tracer).strong(), self.0.strong_refs() + self.1.strong_refs() + self.2.strong_refs() + self.3.strong_refs() + self.4.strong_refs() + self.5.strong_refs(), self.6.strong_refs());
            lemma_reported_twice(old(tracer).strong(), self.0.strong_refs() + self.1.strong_refs() + self.2.strong_refs() + self.3.strong_refs() + self.4.strong_refs() + self.5.strong_refs() + self.6.strong_refs(), self.7.strong_refs());
            lemma_reported_twice(old(tracer).strong(), self.0.strong_refs() + self.1.strong_refs() + self.2.strong_refs() + self.3.strong_refs() + self.4.strong_refs() + self.5.strong_refs() + self.6.strong_refs() + self.7.strong_refs(), self.8.strong_refs());
            lemma_reported_twice(old(tracer).strong(), self.0.strong_refs() + self.1.strong_refs() + self.2.strong_refs() + self.3.strong_refs() + self.4.strong_refs() + self.5.strong_refs() + self.6.strong_refs() + self.7.strong_refs() + self.8.strong_refs(), self.9.strong_refs());
            lemma_reported_twice(old(tracer).strong(), self.0.strong_refs() + self.1.strong_refs() + self.2.strong_refs() + self.3.strong_refs() + self.4.strong_refs() + self.5.strong_refs() + self.6.strong_refs() + self.7.strong_refs() + self.8.strong_refs() + self.9.strong_refs(), self.10.strong_refs());
            lemma_reported_twice(old(tracer).strong(), self.0.strong_refs() + self.1.strong_refs() + self.2.strong_refs() + self.3.strong_refs() + self.4.strong_refs() + self.5.strong_refs() + self.6.strong_refs() + self.7.strong_refs() + self.8.strong_refs() + self.9.strong_refs() + self.10.strong_refs(), self.11.strong_refs());
            lemma_reported_twice(old(tracer).weak(), self.0.weak_refs(), self.1.weak_refs());
            lemma_reported_twice(old(tracer).weak(), self.0.weak_refs() + self.1.weak_refs(), self.2.weak_refs());
            lemma_reported_twice(old(tracer).weak(), self.0.weak_refs() + self.1.weak_refs() + self.2.weak_refs(), self.3.weak_refs());
            lemma_reported_twice(old(tracer).weak(), self.0.weak_refs() + self.1.weak_refs() + self.2.weak_refs() + self.3.weak_refs(), self.4.weak_refs());
            lemma_reported_twice(old(tracer).weak(), self.0.weak_refs() + self.1.weak_refs() + self.2.weak_refs() + self.3.weak_refs() + self.4.weak_refs(), self.5.weak_refs());
            lemma_reported_twice(old(tracer).weak(), self.0.weak_refs() + self.1.weak_refs() + self.2.weak_refs() + self.3.weak_refs() + self.4.weak_refs() + self.5.weak_refs(), self.6.weak_refs());
            lemma_reported_twice(old(tracer).weak(), self.0.weak_refs() + self.1.weak_refs() + self.2.weak_refs() + self.3.weak_refs() + self.4.weak_refs() + self.5.weak_refs() + self.6.weak_refs(), self.7.weak_refs());
            lemma_reported_twice(old(tracer).weak(), self.0.weak_refs() + self.1.weak_refs() + self.2.weak_refs() + self.3.weak_refs() + self.4.weak_refs() + self.5.weak_refs() + self.6.weak_refs() + self.7.weak_refs(), self.8.weak_refs());
            lemma_reported_twice(old(tracer).weak(), self.0.weak_refs() + self.1.weak_refs() + self.2.weak_refs() + self.3.weak_refs() + self.4.weak_refs() + self.5.weak_refs() + self.6.weak_refs() + self.7.weak_refs() + self.8.weak_refs(), self.9.weak_refs());
            lemma_reported_twice(old(tracer).weak(), self.0.weak_refs() + self.1.weak_refs() + self.2.weak_refs() + self.3.weak_refs() + self.4.weak_refs() + self.5.weak_refs() + self.6.weak_refs() + self.7.weak_refs() + self.8.weak_refs() + self.9.weak_refs(), self.10.weak_refs());
            lemma_reported_twice(old(tracer).weak(), self.0.weak_refs() + self.1.weak_refs() + self.2.weak_refs() + self.3.weak_refs() + self.4.weak_refs() + self.5.weak_refs() + self.6.weak_refs() + self.7.weak_refs() + self.8.weak_refs() + self.9.weak_refs() + self.10.weak_refs(), self.11.weak_refs());
        }
    }
}

} // verus!
